use vstd::prelude::*;

use crate::entity::{contains_entity, copy_entities, Entity};
use crate::hierarchy::{live, UiWorld};
use crate::sorted::SortedWidgets;
use crate::transform::{floor_div, inside, within};

verus! {

/// A pointer position or offset in layout units.
#[derive(Clone, Copy, Debug, PartialEq, Eq, Structural)]
pub struct Point {
    pub x: i64,
    pub y: i64,
}

/// The kind of a `UiEvent`.
#[derive(Clone, Copy, Debug, PartialEq, Eq, Structural)]
pub enum UiEventType {
    /// A click started and stopped on the same element.
    Click,
    /// A click started on an element.
    ClickStart,
    /// A click stopped; sent to every element the click started on.
    ClickStop,
    /// The pointer started hovering over an element.
    HoverStart,
    /// The pointer stopped hovering over an element.
    HoverStop,
    /// Sent while an element is dragged: the pointer's offset from where the
    /// drag started, and its position now.
    Dragging { offset_from_mouse: Point, new_position: Point },
    /// A drag ended, over the element below it, if any.
    Dropped { dropped_on: Option<Entity> },
    /// The value of an element was changed by user input.
    ValueChange,
    /// The value of an element was committed.
    ValueCommit,
    /// An element gained focus.
    Focus,
    /// An element lost focus.
    Blur,
}

/// An interaction with an element of the interface.
#[derive(Clone, Copy, Debug, PartialEq, Eq, Structural)]
pub struct UiEvent {
    pub event_type: UiEventType,
    pub target: Entity,
}

/// Events that are aimed at one entity.
pub trait TargetedEvent {
    spec fn target_spec(&self) -> Entity;

    fn target(&self) -> (r: Entity)
        ensures
            r == self.target_spec(),
    ;
}

impl TargetedEvent for UiEvent {
    open spec fn target_spec(&self) -> Entity {
        self.target
    }

    fn target(&self) -> (r: Entity) {
        self.target
    }
}

impl UiEvent {
    pub fn new(event_type: UiEventType, target: Entity) -> (r: UiEvent)
        ensures
            r == (UiEvent { event_type, target }),
    {
        UiEvent { event_type, target }
    }
}

/// Whether the pointer at `(x, y)` lies inside the resolved rectangle of
/// the layout node `e`.
pub open spec fn hit(w: UiWorld, e: Entity, x: int, y: int) -> bool {
    &&& live(w, e)
    &&& w.slot(e.index as int).transform is Some
    &&& inside(w.slot(e.index as int).transform->0.rect(), x, y)
}

/// The hover targets among the first `k` entries of the draw order, walked
/// from the nearest (`ws[k - 1]`) down: an opaque node ends the walk, a
/// transparent target is taken and the walk goes on beneath it.
pub open spec fn targets_upto(w: UiWorld, ws: Seq<(Entity, i64)>, x: int, y: int, k: int) -> Seq<Entity>
    decreases k,
{
    if k <= 0 || k > ws.len() {
        Seq::empty()
    } else {
        let e = ws[k - 1].0;
        if hit(w, e, x, y) {
            let t = w.slot(e.index as int).transform->0;
            if t.opaque {
                seq![e]
            } else if t.transparent_target {
                seq![e] + targets_upto(w, ws, x, y, k - 1)
            } else {
                targets_upto(w, ws, x, y, k - 1)
            }
        } else {
            targets_upto(w, ws, x, y, k - 1)
        }
    }
}

/// The entities targeted by the pointer, nearest first.
pub open spec fn targets(w: UiWorld, ws: Seq<(Entity, i64)>, x: int, y: int) -> Seq<Entity> {
    targets_upto(w, ws, x, y, ws.len() as int)
}

/// The entities under the pointer at `(x, y)`, walking the draw order from
/// the nearest node: an opaque node is the last target, a transparent
/// target lets the walk continue beneath it.
pub fn get_targeted(x: i64, y: i64, sorted_widgets: &SortedWidgets, world: &UiWorld) -> (r: Vec<Entity>)
    ensures
        r@ == targets(*world, sorted_widgets@, x as int, y as int),
{
    let ws = sorted_widgets.widgets();
    let mut out: Vec<Entity> = Vec::new();
    let mut k: usize = ws.len();
    while k > 0
        invariant
            0 <= k <= ws@.len(),
            ws@ == sorted_widgets@,
            out@ + targets_upto(*world, ws@, x as int, y as int, k as int) == targets(
                *world,
                sorted_widgets@,
                x as int,
                y as int,
            ),
        decreases k,
    {
        let e = ws[k - 1].0;
        match world.transform(e) {
            Some(t) => {
                if t.position_inside(x, y) {
                    if t.opaque {
                        out.push(e);
                        assert(out@ =~= out@.drop_last() + seq![e]);
                        return out;
                    } else if t.transparent_target {
                        let ghost before = out@;
                        out.push(e);
                        assert(before + (seq![e] + targets_upto(*world, ws@, x as int, y as int, k - 1))
                            =~= out@ + targets_upto(*world, ws@, x as int, y as int, k - 1));
                    }
                }
            },
            None => {},
        }
        k -= 1;
    }
    assert(out@ + Seq::<Entity>::empty() =~= out@);
    out
}

/// Where a walk from the nearest node that skips every node at depth
/// `below_z` or more stops: the length of the remaining prefix.
pub open spec fn below_start(ws: Seq<(Entity, i64)>, below_z: int, k: int) -> int
    decreases k,
{
    if k <= 0 || k > ws.len() {
        0
    } else if ws[k - 1].1 >= below_z {
        below_start(ws, below_z, k - 1)
    } else {
        k
    }
}

/// The nearest opaque node under the pointer among the first `k` entries.
pub open spec fn opaque_hit_upto(w: UiWorld, ws: Seq<(Entity, i64)>, x: int, y: int, k: int) -> Option<Entity>
    decreases k,
{
    if k <= 0 || k > ws.len() {
        None
    } else {
        let e = ws[k - 1].0;
        if hit(w, e, x, y) && w.slot(e.index as int).transform->0.opaque {
            Some(e)
        } else {
            opaque_hit_upto(w, ws, x, y, k - 1)
        }
    }
}

/// The nearest opaque node under the pointer at `(x, y)` once the nearest
/// nodes at depth `below_z` or more are skipped: where a dragged element at
/// that depth is dropped.
pub fn get_targeted_below(x: i64, y: i64, below_z: i64, sorted_widgets: &SortedWidgets, world: &UiWorld) -> (r: Option<Entity>)
    ensures
        r == opaque_hit_upto(
            *world,
            sorted_widgets@,
            x as int,
            y as int,
            below_start(sorted_widgets@, below_z as int, sorted_widgets@.len() as int),
        ),
{
    let ws = sorted_widgets.widgets();
    let mut k: usize = ws.len();
    while k > 0 && ws[k - 1].1 >= below_z
        invariant
            0 <= k <= ws@.len(),
            ws@ == sorted_widgets@,
            below_start(ws@, below_z as int, k as int) == below_start(ws@, below_z as int, ws@.len() as int),
        decreases k,
    {
        k -= 1;
    }
    let ghost start = k as int;
    while k > 0
        invariant
            0 <= k <= start,
            start <= ws@.len(),
            ws@ == sorted_widgets@,
            start == below_start(ws@, below_z as int, ws@.len() as int),
            opaque_hit_upto(*world, ws@, x as int, y as int, k as int) == opaque_hit_upto(
                *world,
                ws@,
                x as int,
                y as int,
                start,
            ),
        decreases k,
    {
        let e = ws[k - 1].0;
        match world.transform(e) {
            Some(t) => {
                if t.opaque && t.position_inside(x, y) {
                    return Some(e);
                }
            },
            None => {},
        }
        k -= 1;
    }
    None
}

/// The entries of `a` that `b` does not hold, in the order of `a`.
pub open spec fn minus(a: Seq<Entity>, b: Seq<Entity>) -> Seq<Entity>
    decreases a.len(),
{
    if a.len() == 0 {
        Seq::empty()
    } else {
        let r = minus(a.drop_last(), b);
        if b.contains(a.last()) {
            r
        } else {
            r.push(a.last())
        }
    }
}

/// The entries of `a` that `b` also holds, in the order of `a`.
pub open spec fn common(a: Seq<Entity>, b: Seq<Entity>) -> Seq<Entity>
    decreases a.len(),
{
    if a.len() == 0 {
        Seq::empty()
    } else {
        let r = common(a.drop_last(), b);
        if b.contains(a.last()) {
            r.push(a.last())
        } else {
            r
        }
    }
}

/// One event of kind `kind` for each entity of `s`, in order.
pub open spec fn tagged(kind: UiEventType, s: Seq<Entity>) -> Seq<UiEvent> {
    s.map_values(|e: Entity| UiEvent { event_type: kind, target: e })
}

fn select_entities(a: &Vec<Entity>, b: &Vec<Entity>, keep_common: bool) -> (r: Vec<Entity>)
    ensures
        r@ == (if keep_common {
            common(a@, b@)
        } else {
            minus(a@, b@)
        }),
{
    let mut out: Vec<Entity> = Vec::new();
    let mut k: usize = 0;
    while k < a.len()
        invariant
            0 <= k <= a@.len(),
            out@ == (if keep_common {
                common(a@.subrange(0, k as int), b@)
            } else {
                minus(a@.subrange(0, k as int), b@)
            }),
        decreases a@.len() - k,
    {
        let e = a[k];
        let inb = contains_entity(b, e);
        assert(a@.subrange(0, k + 1).drop_last() =~= a@.subrange(0, k as int));
        if inb == keep_common {
            out.push(e);
        }
        k += 1;
    }
    assert(a@.subrange(0, a@.len() as int) =~= a@);
    out
}

fn push_tagged(out: &mut Vec<UiEvent>, kind: UiEventType, list: &Vec<Entity>)
    ensures
        final(out)@ == old(out)@ + tagged(kind, list@),
{
    let ghost start = out@;
    let mut k: usize = 0;
    while k < list.len()
        invariant
            0 <= k <= list@.len(),
            out@ == start + tagged(kind, list@.subrange(0, k as int)),
        decreases list@.len() - k,
    {
        out.push(UiEvent { event_type: kind, target: list[k] });
        k += 1;
        assert(out@ =~= start + tagged(kind, list@.subrange(0, k as int)));
    }
    assert(list@.subrange(0, list@.len() as int) =~= list@);
}

/// What the pointer event generator remembers between frames.
pub struct PointerView {
    pub mouse_was_down: bool,
    pub click_started_on: Seq<Entity>,
    pub last_targets: Seq<Entity>,
}

/// One frame of the pointer event generator: the new state and the events,
/// given the targets under the pointer (`None` where the pointer is not over
/// the window) and whether the button is down.
pub open spec fn pointer_step(s: PointerView, targets: Option<Seq<Entity>>, down: bool) -> (PointerView, Seq<UiEvent>) {
    let started = down && !s.mouse_was_down;
    let stopped = !down && s.mouse_was_down;
    let (first, pressed, last) = match targets {
        Some(t) => (
            tagged(UiEventType::HoverStart, minus(t, s.last_targets)) + tagged(
                UiEventType::HoverStop,
                minus(s.last_targets, t),
            ) + if started {
                tagged(UiEventType::ClickStart, t)
            } else if stopped {
                tagged(UiEventType::Click, common(s.click_started_on, t))
            } else {
                Seq::empty()
            },
            if started {
                t
            } else {
                s.click_started_on
            },
            t,
        ),
        None => (Seq::empty(), s.click_started_on, s.last_targets),
    };
    (
        PointerView {
            mouse_was_down: down,
            click_started_on: if stopped {
                Seq::empty()
            } else {
                pressed
            },
            last_targets: last,
        },
        first + if stopped {
            tagged(UiEventType::ClickStop, pressed)
        } else {
            Seq::empty()
        },
    )
}

/// The hover and click state of the pointer between frames.
pub struct UiMouseSystem {
    mouse_was_down: bool,
    click_started_on: Vec<Entity>,
    last_targets: Vec<Entity>,
}

impl UiMouseSystem {
    pub closed spec fn view(&self) -> PointerView {
        PointerView {
            mouse_was_down: self.mouse_was_down,
            click_started_on: self.click_started_on@,
            last_targets: self.last_targets@,
        }
    }

    pub fn new() -> (r: UiMouseSystem)
        ensures
            r@ == (PointerView {
                mouse_was_down: false,
                click_started_on: Seq::empty(),
                last_targets: Seq::empty(),
            }),
    {
        UiMouseSystem { mouse_was_down: false, click_started_on: Vec::new(), last_targets: Vec::new() }
    }

    /// Runs one frame: hover changes against the last frame's targets, a
    /// click start on every target when the button goes down, and on
    /// release a click on the targets it started on that are still under
    /// the pointer, then a click stop on all it started on.
    pub fn step(&mut self, targets: Option<Vec<Entity>>, mouse_down: bool) -> (events: Vec<UiEvent>)
        ensures
            (final(self)@, events@) == pointer_step(
                old(self)@,
                match targets {
                    Some(t) => Some(t@),
                    None => None,
                },
                mouse_down,
            ),
    {
        let click_started = mouse_down && !self.mouse_was_down;
        let click_stopped = !mouse_down && self.mouse_was_down;
        let mut events: Vec<UiEvent> = Vec::new();
        let ghost s = self@;
        let ghost tv = match &targets {
            Some(t) => Some(t@),
            None => None,
        };
        match targets {
            Some(t) => {
                let entering = select_entities(&t, &self.last_targets, false);
                push_tagged(&mut events, UiEventType::HoverStart, &entering);
                let leaving = select_entities(&self.last_targets, &t, false);
                push_tagged(&mut events, UiEventType::HoverStop, &leaving);
                if click_started {
                    self.click_started_on = copy_entities(&t);
                    push_tagged(&mut events, UiEventType::ClickStart, &t);
                } else if click_stopped {
                    let clicked = select_entities(&self.click_started_on, &t, true);
                    push_tagged(&mut events, UiEventType::Click, &clicked);
                }
                self.last_targets = t;
            },
            None => {},
        }
        let ghost first = events@;
        if click_stopped {
            push_tagged(&mut events, UiEventType::ClickStop, &self.click_started_on);
            self.click_started_on = Vec::new();
        }
        self.mouse_was_down = mouse_down;
        proof {
            let expected = pointer_step(s, tv, mouse_down);
            assert(events@ =~= expected.1);
            assert(self@.click_started_on =~= expected.0.click_started_on);
        }
        events
    }
}

/// Where the topmost node under the pointer is opaque, it is the only
/// target, whatever lies beneath it.
pub proof fn lemma_opaque_top_occludes(w: UiWorld, ws: Seq<(Entity, i64)>, x: int, y: int)
    requires
        ws.len() > 0,
        hit(w, ws[ws.len() - 1].0, x, y),
        w.slot(ws[ws.len() - 1].0.index as int).transform->0.opaque,
    ensures
        targets(w, ws, x, y) == seq![ws[ws.len() - 1].0],
{
}

/// The pointer position in layout coordinates, for a position in window
/// pixels (origin at the top left, y down) in a window of the given size:
/// the origin moves to the centre (halves rounded down) and y points up.
pub fn mouse_world_position(mouse_x: i64, mouse_y: i64, screen_width: i64, screen_height: i64) -> (r: (i64, i64))
    requires
        within(mouse_x as int),
        within(mouse_y as int),
        within(screen_width as int),
        within(screen_height as int),
    ensures
        r.0 == mouse_x - screen_width / 2,
        r.1 == screen_height - mouse_y - screen_height / 2,
{
    let x = mouse_x as i128 - floor_div(screen_width as i128, 2);
    let y = screen_height as i128 - mouse_y as i128 - floor_div(screen_height as i128, 2);
    (x as i64, y as i64)
}

} // verus!
