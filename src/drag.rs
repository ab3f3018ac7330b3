use vstd::prelude::*;

use crate::entity::{contains_entity, Entity};
use crate::event::{below_start, get_targeted_below, opaque_hit_upto, Point, UiEvent, UiEventType};
use crate::hierarchy::{handle, live, live_index, remove_entity, wf, SlotModel, UiWorld};
use crate::layout::ScaleMode;
use crate::resolve::{get_parent_pixel_size, parent_size};
use crate::sorted::SortedWidgets;
use crate::transform::{floor_div, within, UiTransform, RATIO_ONE};

verus! {

/// `s` with `e` appended unless it is there already.
pub open spec fn add_once(s: Seq<Entity>, e: Entity) -> Seq<Entity> {
    if s.contains(e) {
        s
    } else {
        s.push(e)
    }
}

/// The drag start, the dragged entities and the entities whose drag stops,
/// after the first `k` interaction events of a frame: a click start moves
/// the drag start to the pointer and starts dragging a draggable target; a
/// click stop on a dragged entity stops its drag.
pub open spec fn drag_events(
    start: Point,
    dragged: Seq<Entity>,
    events: Seq<UiEvent>,
    draggables: Seq<Entity>,
    mouse: Point,
    k: int,
) -> (Point, Seq<Entity>, Seq<Entity>)
    decreases k,
{
    if k <= 0 || k > events.len() {
        (start, dragged, Seq::empty())
    } else {
        let (s, d, stops) = drag_events(start, dragged, events, draggables, mouse, k - 1);
        let ev = events[k - 1];
        match ev.event_type {
            UiEventType::ClickStart => (
                mouse,
                if draggables.contains(ev.target) {
                    add_once(d, ev.target)
                } else {
                    d
                },
                stops,
            ),
            UiEventType::ClickStop => (
                s,
                d,
                if d.contains(ev.target) {
                    add_once(stops, ev.target)
                } else {
                    stops
                },
            ),
            _ => (s, d, stops),
        }
    }
}

/// The stops after the hidden ones among the first `j` dragged entities are
/// added: a hidden element's drag stops.
pub open spec fn hidden_stops(w: UiWorld, d: Seq<Entity>, stops: Seq<Entity>, j: int) -> Seq<Entity>
    decreases j,
{
    if j <= 0 || j > d.len() {
        stops
    } else {
        let s = hidden_stops(w, d, stops, j - 1);
        if live(w, d[j - 1]) && w.slot(d[j - 1].index as int).hidden {
            add_once(s, d[j - 1])
        } else {
            s
        }
    }
}

/// How far a drag moves the local position of `e` for a pointer movement
/// of `change`: the movement itself in layout units, or its fraction of the
/// parent's size (in units of `RATIO_ONE`; none for an empty parent).
pub open spec fn drag_delta(t: UiTransform, parent: (i64, i64), change: Point) -> (int, int) {
    match t.scale_mode {
        ScaleMode::Pixel => (change.x as int, change.y as int),
        ScaleMode::Percent => (
            if parent.0 > 0 {
                (change.x * RATIO_ONE) / (parent.0 as int)
            } else {
                0
            },
            if parent.1 > 0 {
                (change.y * RATIO_ONE) / (parent.1 as int)
            } else {
                0
            },
        ),
    }
}

/// `v` moved by `d`, or `v` itself where the sum leaves the range of `i64`.
pub open spec fn moved(v: i64, d: int) -> i64 {
    if i64::MIN <= v + d <= i64::MAX {
        (v + d) as i64
    } else {
        v
    }
}

/// The slot `k` of `w` after the entities of `d` are dragged by `change`.
pub open spec fn dragged_slot(w: UiWorld, k: int, d: Seq<Entity>, change: Point, screen: (i64, i64)) -> SlotModel {
    let s = w.slot(k);
    if live_index(w, k) && s.transform is Some && d.contains(handle(w, k)) {
        let t = s.transform->0;
        let delta = drag_delta(t, parent_size(w, handle(w, k), screen.0, screen.1), change);
        SlotModel {
            transform: Some(UiTransform { local_x: moved(t.local_x, delta.0), local_y: moved(t.local_y, delta.1), ..t }),
            ..s
        }
    } else {
        s
    }
}

/// The drop events for the entities of `stops` that are layout nodes: each
/// is dropped on the nearest opaque node under the pointer below its depth.
pub open spec fn drop_events(w: UiWorld, ws: Seq<(Entity, i64)>, stops: Seq<Entity>, mouse: Point, j: int) -> Seq<UiEvent>
    decreases j,
{
    if j <= 0 || j > stops.len() {
        Seq::empty()
    } else {
        let e = stops[j - 1];
        drop_events(w, ws, stops, mouse, j - 1) + if live(w, e) && w.slot(e.index as int).transform is Some {
            let z = w.slot(e.index as int).transform->0.rect().z;
            seq![UiEvent {
                event_type: UiEventType::Dropped {
                    dropped_on: opaque_hit_upto(w, ws, mouse.x as int, mouse.y as int, below_start(ws, z as int, ws.len() as int)),
                },
                target: e,
            }]
        } else {
            Seq::empty()
        }
    }
}

/// The entries of `d` that `stops` does not hold.
pub open spec fn without(d: Seq<Entity>, stops: Seq<Entity>) -> Seq<Entity> {
    d.filter(|e: Entity| !stops.contains(e))
}

/// One `Dragging` event for each entity of `d`.
pub open spec fn dragging_events(d: Seq<Entity>, offset: Point, mouse: Point) -> Seq<UiEvent> {
    d.map_values(|e: Entity| UiEvent { event_type: UiEventType::Dragging { offset_from_mouse: offset, new_position: mouse }, target: e })
}

/// Only the local positions of layout nodes differ between `a` and `b`.
pub open spec fn only_moved(a: UiWorld, b: UiWorld) -> bool {
    &&& a.len() == b.len()
    &&& forall|k: int|
        #![trigger b.slot(k)]
        0 <= k < a.len() ==> {
            &&& b.slot(k) == SlotModel { transform: b.slot(k).transform, ..a.slot(k) }
            &&& a.slot(k).transform is Some == b.slot(k).transform is Some
            &&& a.slot(k).transform is Some ==> b.slot(k).transform->0 == UiTransform {
                local_x: b.slot(k).transform->0.local_x,
                local_y: b.slot(k).transform->0.local_y,
                ..a.slot(k).transform->0
            }
        }
}

fn moved_exec(v: i64, d: i128) -> (r: i64)
    requires
        -0x100_0000_0000_0000_0000_0000_0000 <= d <= 0x100_0000_0000_0000_0000_0000_0000,
    ensures
        r == moved(v, d as int),
{
    let sum = v as i128 + d;
    if i64::MIN as i128 <= sum && sum <= i64::MAX as i128 {
        sum as i64
    } else {
        v
    }
}

pub struct DragView {
    pub start: Point,
    pub last: Point,
    pub dragged: Seq<Entity>,
}

/// The state of dragging between frames: where the drag started, where the
/// pointer was last frame, and the entities being dragged.
pub struct DragWidgetSystem {
    start: Point,
    last: Point,
    dragged: Vec<Entity>,
}

pub open spec fn point_within(p: Point) -> bool {
    within(p.x as int) && within(p.y as int)
}

impl DragWidgetSystem {
    pub closed spec fn view(&self) -> DragView {
        DragView { start: self.start, last: self.last, dragged: self.dragged@ }
    }

    pub open spec fn wf(&self) -> bool {
        &&& point_within(self@.start)
        &&& point_within(self@.last)
        &&& self@.dragged.no_duplicates()
    }

    pub fn new() -> (r: DragWidgetSystem)
        ensures
            r.wf(),
            r@ == (DragView { start: Point { x: 0, y: 0 }, last: Point { x: 0, y: 0 }, dragged: Seq::empty() }),
    {
        DragWidgetSystem { start: Point { x: 0, y: 0 }, last: Point { x: 0, y: 0 }, dragged: Vec::new() }
    }

    /// Runs one frame of dragging. `events` are this frame's interaction
    /// events, `draggables` the entities that can be dragged, `mouse` the
    /// pointer position. Dragged entities follow the pointer (their local
    /// position moves with it) and get a `Dragging` event; those whose drag
    /// stopped (released, or hidden) get a `Dropped` event naming the node
    /// below them, and are no longer dragged.
    pub fn step(
        &mut self,
        world: &mut UiWorld,
        sorted: &SortedWidgets,
        events: &Vec<UiEvent>,
        draggables: &Vec<Entity>,
        mouse: Point,
        screen_width: i64,
        screen_height: i64,
    ) -> (out: Vec<UiEvent>)
        requires
            old(self).wf(),
            wf(*old(world)),
            point_within(mouse),
        ensures
            final(self).wf(),
            wf(*final(world)),
            ({
                let (start, d, stops0) = drag_events(old(self)@.start, old(self)@.dragged, events@, draggables@, mouse, events@.len() as int);
                let stops = hidden_stops(*old(world), d, stops0, d.len() as int);
                let change = Point { x: (mouse.x - old(self)@.last.x) as i64, y: (mouse.y - old(self)@.last.y) as i64 };
                let offset = Point { x: (mouse.x - start.x) as i64, y: (mouse.y - start.y) as i64 };
                &&& final(world).len() == old(world).len()
                &&& forall|k: int| 0 <= k < old(world).len() ==> #[trigger] final(world).slot(k) == dragged_slot(*old(world), k, d, change, (screen_width, screen_height))
                &&& out@ == dragging_events(d, offset, mouse) + drop_events(*final(world), sorted@, stops, mouse, stops.len() as int)
                &&& final(self)@.start == start
                &&& final(self)@.last == mouse
                &&& forall|x: Entity| final(self)@.dragged.contains(x) <==> (d.contains(x) && !stops.contains(x))
            }),
    {
        let ghost w0 = *world;
        let ghost v0 = self@;
        // Interaction events of this frame.
        let mut stops: Vec<Entity> = Vec::new();
        let mut k: usize = 0;
        while k < events.len()
            invariant
                0 <= k <= events@.len(),
                point_within(mouse),
                point_within(self.start),
                self.last == v0.last,
                self.dragged@.no_duplicates(),
                stops@.no_duplicates(),
                (self.start, self.dragged@, stops@) == drag_events(v0.start, v0.dragged, events@, draggables@, mouse, k as int),
            decreases events@.len() - k,
        {
            let ev = events[k];
            match ev.event_type {
                UiEventType::ClickStart => {
                    self.start = mouse;
                    if contains_entity(draggables, ev.target) && !contains_entity(&self.dragged, ev.target) {
                        let ghost before = self.dragged@;
                        self.dragged.push(ev.target);
                        proof { lemma_push_fresh(before, ev.target); }
                    }
                },
                UiEventType::ClickStop => {
                    if contains_entity(&self.dragged, ev.target) && !contains_entity(&stops, ev.target) {
                        let ghost before = stops@;
                        stops.push(ev.target);
                        proof { lemma_push_fresh(before, ev.target); }
                    }
                },
                _ => {},
            }
            k += 1;
        }
        let ghost d = self.dragged@;
        let ghost stops0 = stops@;
        let ghost start = self.start;
        let offset = Point { x: mouse.x - self.start.x, y: mouse.y - self.start.y };
        let change = Point { x: mouse.x - self.last.x, y: mouse.y - self.last.y };
        let mut out: Vec<UiEvent> = Vec::new();
        // Move what is dragged.
        let mut j: usize = 0;
        while j < self.dragged.len()
            invariant
                0 <= j <= d.len(),
                self.dragged@ == d,
                self.last == v0.last,
                self.start == start,
                point_within(self.start),
                d.no_duplicates(),
                stops@.no_duplicates(),
                stops@ == hidden_stops(w0, d, stops0, j as int),
                wf(*world),
                only_moved(w0, *world),
                point_within(mouse),
                -0x200_0000_0000 <= change.x <= 0x200_0000_0000,
                -0x200_0000_0000 <= change.y <= 0x200_0000_0000,
                out@ == dragging_events(d.subrange(0, j as int), offset, mouse),
                forall|m: int| 0 <= m < w0.len() ==> #[trigger] world.slot(m) == dragged_slot(w0, m, d.subrange(0, j as int), change, (screen_width, screen_height)),
            decreases d.len() - j,
        {
            let e = self.dragged[j];
            proof {
                assert(d.subrange(0, j + 1) =~= d.subrange(0, j as int).push(e));
            }
            if world.is_hidden(e) && !contains_entity(&stops, e) {
                let ghost before = stops@;
                stops.push(e);
                proof { lemma_push_fresh(before, e); }
            }
            out.push(UiEvent { event_type: UiEventType::Dragging { offset_from_mouse: offset, new_position: mouse }, target: e });
            let ghost wb = *world;
            match world.transform(e) {
                Some(t) => {
                    let lx = t.local_x;
                    let ly = t.local_y;
                    let mode = t.scale_mode;
                    let (pw, ph) = get_parent_pixel_size(e, world, screen_width, screen_height);
                    let (dx, dy): (i128, i128) = match mode {
                        ScaleMode::Pixel => (change.x as i128, change.y as i128),
                        ScaleMode::Percent => (
                            if pw > 0 { floor_div(change.x as i128 * (RATIO_ONE as i128), pw as i128) } else { 0 },
                            if ph > 0 { floor_div(change.y as i128 * (RATIO_ONE as i128), ph as i128) } else { 0 },
                        ),
                    };
                    let nx = moved_exec(lx, dx);
                    let ny = moved_exec(ly, dy);
                    world.set_local_position(e, nx, ny);
                    proof {
                        lemma_parent_size_moved(w0, wb, e, screen_width, screen_height);
                    }
                },
                None => {},
            }
            proof {
                assert forall|m: int| 0 <= m < w0.len() implies #[trigger] world.slot(m) == dragged_slot(w0, m, d.subrange(0, j + 1), change, (screen_width, screen_height)) by {
                    assert(wb.slot(m) == dragged_slot(w0, m, d.subrange(0, j as int), change, (screen_width, screen_height)));
                    if handle(w0, m) == e {
                        let s0 = d.subrange(0, j as int);
                        if s0.contains(e) {
                            let q = choose|q: int| 0 <= q < s0.len() && s0[q] == e;
                            assert(d[q] == d[j as int]);
                        }
                        assert(d.subrange(0, j + 1)[j as int] == e);
                    } else {
                        let s1 = d.subrange(0, j + 1);
                        let s0 = d.subrange(0, j as int);
                        let h = handle(w0, m);
                        if s1.contains(h) {
                            let q = choose|q: int| 0 <= q < s1.len() && s1[q] == h;
                            assert(s0[q] == h);
                        }
                        if s0.contains(h) {
                            let q = choose|q: int| 0 <= q < s0.len() && s0[q] == h;
                            assert(s1[q] == h);
                        }
                        assert(s1.contains(h) <==> s0.contains(h));
                    }
                }
                assert(out@ =~= dragging_events(d.subrange(0, j + 1), offset, mouse));
            }
            j += 1;
        }
        proof {
            assert(d.subrange(0, d.len() as int) =~= d);
        }
        self.last = mouse;
        // Drop what stopped.
        let ghost all_stops = stops@;
        let ghost first = out@;
        let mut q: usize = 0;
        while q < stops.len()
            invariant
                0 <= q <= all_stops.len(),
                stops@ == all_stops,
                self.dragged@.no_duplicates(),
                forall|x: Entity| #[trigger] self.dragged@.contains(x) <==> (d.contains(x) && !all_stops.subrange(0, q as int).contains(x)),
                out@ == first + drop_events(*world, sorted@, all_stops, mouse, q as int),
                point_within(self.start),
                point_within(mouse),
                self.last == mouse,
                self.start == start,
            decreases all_stops.len() - q,
        {
            let e = stops[q];
            match world.transform(e) {
                Some(t) => {
                    let z = t.global_z();
                    let dropped = get_targeted_below(mouse.x, mouse.y, z, sorted, world);
                    out.push(UiEvent { event_type: UiEventType::Dropped { dropped_on: dropped }, target: e });
                },
                None => {},
            }
            let ghost before_d = self.dragged@;
            assert(forall|x: Entity| #[trigger] before_d.contains(x) <==> (d.contains(x) && !all_stops.subrange(0, q as int).contains(x)));
            remove_entity(&mut self.dragged, e);
            proof {
                assert(all_stops.subrange(0, q + 1) =~= all_stops.subrange(0, q as int).push(e));
                let t1 = all_stops.subrange(0, q + 1);
                let t0 = all_stops.subrange(0, q as int);
                assert forall|x: Entity| t1.contains(x) <==> (t0.contains(x) || x == e) by {
                    if t1.contains(x) {
                        let r = choose|r: int| 0 <= r < t1.len() && t1[r] == x;
                        if r < q {
                            assert(t0[r] == x);
                        }
                    }
                    if t0.contains(x) {
                        let r = choose|r: int| 0 <= r < t0.len() && t0[r] == x;
                        assert(t1[r] == x);
                    }
                    if x == e {
                        assert(t1[q as int] == x);
                    }
                }
                assert forall|x: Entity| self.dragged@.contains(x) <==> (d.contains(x) && !t1.contains(x)) by {
                    assert(t1.contains(x) <==> (t0.contains(x) || x == e));
                    assert(before_d.contains(x) <==> (d.contains(x) && !t0.contains(x)));
                    assert(self.dragged@.contains(x) <==> (before_d.contains(x) && x != e));
                }
            }
            q += 1;
        }
        proof {
            assert(all_stops.subrange(0, all_stops.len() as int) =~= all_stops);
            assert(all_stops == hidden_stops(w0, d, stops0, d.len() as int));
            assert((start, d, stops0) == drag_events(v0.start, v0.dragged, events@, draggables@, mouse, events@.len() as int));
            assert(out@ == dragging_events(d, offset, mouse) + drop_events(*world, sorted@, all_stops, mouse, all_stops.len() as int));
            assert(change == Point { x: (mouse.x - v0.last.x) as i64, y: (mouse.y - v0.last.y) as i64 });
            assert(forall|m: int| 0 <= m < w0.len() ==> #[trigger] world.slot(m) == dragged_slot(w0, m, d, change, (screen_width, screen_height)));
        }
        out
    }
}

proof fn lemma_push_fresh(s: Seq<Entity>, e: Entity)
    requires
        s.no_duplicates(),
        !s.contains(e),
    ensures
        s.push(e).no_duplicates(),
        s.push(e) == add_once(s, e),
{
    assert forall|a: int, b: int| 0 <= a < b < s.push(e).len() implies s.push(e)[a] != s.push(e)[b] by {
        if b == s.len() {
            assert(s[a] == s.push(e)[a]);
        }
    }
}

proof fn lemma_parent_size_moved(w0: UiWorld, w: UiWorld, e: Entity, sw: i64, sh: i64)
    requires
        only_moved(w0, w),
    ensures
        parent_size(w, e, sw, sh) == parent_size(w0, e, sw, sh),
{
    let i = e.index as int;
    if 0 <= i < w0.len() {
        assert(w.slot(i) == SlotModel { transform: w.slot(i).transform, ..w0.slot(i) });
        match w0.slot(i).parent {
            Some(p) => {
                let pi = p.index as int;
                if 0 <= pi < w0.len() {
                    assert(w.slot(pi) == SlotModel { transform: w.slot(pi).transform, ..w0.slot(pi) });
                    if w0.slot(pi).transform is Some {
                        assert(w.slot(pi).transform->0.resolved == w0.slot(pi).transform->0.resolved);
                    }
                }
            },
            None => {},
        }
    }
}

} // verus!
