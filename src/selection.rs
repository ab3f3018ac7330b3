use vstd::prelude::*;

use crate::entity::{contains_entity, Entity};
use crate::event::{tagged, UiEvent, UiEventType};
use crate::retrigger::{find_table, table_of};
use vstd::std_specs::cmp::PartialEqSpec;
use crate::hierarchy::remove_entity;
use vstd::seq_lib::{to_multiset_build, to_multiset_insert};

verus! {

/// The entities that are selected, and the one selected last.
#[derive(Clone, Debug)]
pub struct SelectedEntities {
    entities: Vec<Entity>,
    last_entity: Option<Entity>,
}

impl SelectedEntities {
    /// The selected entities, in the order they were first selected.
    pub closed spec fn order(&self) -> Seq<Entity> {
        self.entities@
    }

    /// The selected entities.
    pub open spec fn selected(&self) -> Set<Entity> {
        self.order().to_set()
    }

    /// The entity selected last, if it is still selected.
    pub closed spec fn last(&self) -> Option<Entity> {
        self.last_entity
    }

    pub closed spec fn wf(&self) -> bool {
        &&& self.entities@.no_duplicates()
        &&& self.last_entity matches Some(e) ==> self.entities@.contains(e)
    }

    pub fn new() -> (r: SelectedEntities)
        ensures
            r.wf(),
            r.order() == Seq::<Entity>::empty(),
            r.selected() == Set::<Entity>::empty(),
            r.last() is None,
    {
        let r = SelectedEntities { entities: Vec::new(), last_entity: None };
        assert(r.entities@.to_set() =~= Set::<Entity>::empty());
        r
    }

    /// Deselects everything.
    pub fn clear(&mut self)
        ensures
            final(self).wf(),
            final(self).selected() == Set::<Entity>::empty(),
            final(self).order() == Seq::<Entity>::empty(),
            final(self).last() is None,
    {
        self.entities = Vec::new();
        self.last_entity = None;
        assert(self.entities@.to_set() =~= Set::<Entity>::empty());
    }

    /// Selects `entity`, which becomes the last selected.
    pub fn insert(&mut self, entity: Entity)
        requires
            old(self).wf(),
        ensures
            final(self).wf(),
            final(self).selected() == old(self).selected().insert(entity),
            final(self).order() == (if old(self).order().contains(entity) {
                old(self).order()
            } else {
                old(self).order().push(entity)
            }),
            final(self).last() == Some(entity),
    {
        if !contains_entity(&self.entities, entity) {
            self.entities.push(entity);
            assert(self.entities@.no_duplicates()) by {
                assert forall|a: int, b: int| 0 <= a < b < self.entities@.len() implies self.entities@[a] != self.entities@[b] by {
                    if b == self.entities@.len() - 1 {
                        assert(old(self).entities@[a] == self.entities@[a]);
                    }
                }
            }
            assert(self.entities@.contains(entity)) by {
                assert(self.entities@[self.entities@.len() - 1] == entity);
            }
            assert(self.entities@.to_set() =~= old(self).entities@.to_set().insert(entity)) by {
                assert forall|x: Entity| self.entities@.contains(x) <==> (old(self).entities@.contains(x) || x == entity) by {
                    if old(self).entities@.contains(x) {
                        let k = choose|k: int| 0 <= k < old(self).entities@.len() && old(self).entities@[k] == x;
                        assert(self.entities@[k] == x);
                    }
                    if x == entity {
                        assert(self.entities@[self.entities@.len() - 1] == x);
                    }
                    if self.entities@.contains(x) && x != entity {
                        let k = choose|k: int| 0 <= k < self.entities@.len() && self.entities@[k] == x;
                        assert(old(self).entities@[k] == x);
                    }
                }
            }
        } else {
            assert(self.entities@.to_set() =~= old(self).entities@.to_set().insert(entity));
        }
        self.last_entity = Some(entity);
    }

    /// Deselects `entity`. If it was the last selected, another selected
    /// entity (if any) becomes the last one.
    pub fn remove(&mut self, entity: Entity)
        requires
            old(self).wf(),
        ensures
            final(self).wf(),
            final(self).selected() == old(self).selected().remove(entity),
            old(self).last() != Some(entity) ==> final(self).last() == old(self).last(),
            old(self).last() == Some(entity) ==> (final(self).last() is None <==> final(self).selected().is_empty()),
            final(self).last() matches Some(x) ==> final(self).selected().contains(x),
    {
        remove_entity(&mut self.entities, entity);
        assert(self.entities@.to_set() =~= old(self).entities@.to_set().remove(entity));
        if self.last_entity == Some(entity) {
            if self.entities.len() > 0 {
                self.last_entity = Some(self.entities[0]);
                assert(self.entities@.contains(self.entities@[0]));
            } else {
                self.last_entity = None;
                assert(self.entities@.to_set() =~= Set::<Entity>::empty());
            }
            proof {
                if self.entities@.len() > 0 {
                    assert(self.entities@.to_set().contains(self.entities@[0]));
                }
            }
        } else {
            match self.last_entity {
                Some(e) => {
                    assert(self.entities@.contains(e));
                },
                None => {},
            }
        }
    }

    pub fn contains(&self, entity: Entity) -> (r: bool)
        ensures
            r == self.selected().contains(entity),
    {
        contains_entity(&self.entities, entity)
    }

    /// The selected entities, each once.
    pub fn entities(&self) -> (r: &[Entity])
        requires
            self.wf(),
        ensures
            r@ == self.order(),
            r@.to_set() == self.selected(),
            r@.no_duplicates(),
    {
        self.entities.as_slice()
    }

    pub fn last_entity(&self) -> (r: Option<Entity>)
        ensures
            r == self.last(),
    {
        self.last_entity
    }
}

/// Marks an entity as selectable: its place in the tab order, the group
/// within which several entities can be selected at once, whether clicking
/// it adds to the selection without a modifier key, and whether it takes
/// the keyboard input while selected.
#[derive(Clone, Copy, Debug)]
pub struct Selectable<G> {
    pub order: u32,
    pub multi_select_group: Option<G>,
    pub auto_multi_select: bool,
    pub consumes_inputs: bool,
}

/// `a` comes before `b` in the tab order: a smaller order, or the same
/// order and a smaller slot index.
pub open spec fn tabs_before(a: (Entity, u32), b: (Entity, u32)) -> bool {
    a.1 < b.1 || (a.1 == b.1 && a.0.index <= b.0.index)
}

/// The selectable entities with their tab order, sorted by that order.
#[derive(Clone, Debug)]
pub struct SelectionOrderCache {
    cache: Vec<(Entity, u32)>,
}

impl SelectionOrderCache {
    pub closed spec fn view(&self) -> Seq<(Entity, u32)> {
        self.cache@
    }

    pub fn new() -> (r: SelectionOrderCache)
        ensures
            r@ == Seq::<(Entity, u32)>::empty(),
    {
        SelectionOrderCache { cache: Vec::new() }
    }

    /// The entries, each an entity and its tab order.
    pub fn entitites(&self) -> (r: &[(Entity, u32)])
        ensures
            r@ == self@,
    {
        self.cache.as_slice()
    }

    /// Rebuilds the cache from the selectable entities and their orders:
    /// the same entries, sorted by order and then by slot index.
    pub fn rebuild(&mut self, selectables: &Vec<(Entity, u32)>)
        ensures
            final(self)@.to_multiset() == selectables@.to_multiset(),
            forall|a: int, b: int| 0 <= a < b < final(self)@.len() ==> tabs_before(#[trigger] final(self)@[a], #[trigger] final(self)@[b]),
    {
        let mut out: Vec<(Entity, u32)> = Vec::new();
        let mut i: usize = 0;
        proof {
            broadcast use vstd::seq_lib::group_to_multiset_ensures;

            assert(selectables@.subrange(0, 0) =~= Seq::<(Entity, u32)>::empty());
            assert(out@ =~= Seq::<(Entity, u32)>::empty());
            assert(out@.to_multiset() =~= selectables@.subrange(0, 0).to_multiset());
        }
        while i < selectables.len()
            invariant
                0 <= i <= selectables@.len(),
                out@.to_multiset() == selectables@.subrange(0, i as int).to_multiset(),
                forall|a: int, b: int| 0 <= a < b < out@.len() ==> tabs_before(#[trigger] out@[a], #[trigger] out@[b]),
            decreases selectables@.len() - i,
        {
            let entry = selectables[i];
            let mut pos: usize = 0;
            while pos < out.len() && tabs_before_exec(out[pos], entry)
                invariant
                    0 <= pos <= out@.len(),
                    forall|k: int| 0 <= k < pos ==> tabs_before(#[trigger] out@[k], entry),
                decreases out@.len() - pos,
            {
                pos += 1;
            }
            let ghost before = out@;
            proof {
                assert forall|k: int| pos <= k < before.len() implies !tabs_before(#[trigger] before[k], entry) by {
                    if k > pos {
                        assert(tabs_before(before[pos as int], before[k]));
                    }
                }
                to_multiset_insert(before, pos as int, entry);
                to_multiset_build(selectables@.subrange(0, i as int), entry);
                assert(selectables@.subrange(0, i + 1) =~= selectables@.subrange(0, i as int).push(entry));
            }
            out.insert(pos, entry);
            proof {
                assert forall|a: int, b: int| 0 <= a < b < out@.len() implies tabs_before(#[trigger] out@[a], #[trigger] out@[b]) by {
                    if a < pos && b < pos {
                        assert(tabs_before(before[a], before[b]));
                    } else if a < pos && b == pos {
                    } else if a < pos {
                        assert(tabs_before(before[a], before[b - 1]));
                    } else if a == pos {
                        assert(!tabs_before(before[b - 1], entry));
                    } else {
                        assert(tabs_before(before[a - 1], before[b - 1]));
                    }
                }
            }
            i += 1;
        }
        assert(selectables@.subrange(0, selectables@.len() as int) =~= selectables@);
        self.cache = out;
    }
}

fn tabs_before_exec(a: (Entity, u32), b: (Entity, u32)) -> (r: bool)
    ensures
        r == tabs_before(a, b),
{
    a.1 < b.1 || (a.1 == b.1 && a.0.index <= b.0.index)
}

/// Whether two multi-select groups are the same group.
pub open spec fn same_group<G: PartialEq>(a: Option<G>, b: Option<G>) -> bool {
    match (a, b) {
        (Some(x), Some(y)) => x.eq_spec(&y),
        (None, None) => true,
        _ => false,
    }
}

fn same_group_exec<G: PartialEq>(a: &Option<G>, b: &Option<G>) -> (r: bool)
    requires
        G::obeys_eq_spec(),
    ensures
        r == same_group(*a, *b),
{
    match (a, b) {
        (Some(x), Some(y)) => x.eq(y),
        (None, None) => true,
        _ => false,
    }
}

/// The selection state as the clicks see it: the selected entities in
/// order, and the last one selected.
pub struct SelectionView {
    pub order: Seq<Entity>,
    pub last: Option<Entity>,
}

/// What one click start on `target` does to the selection, and the focus
/// and blur events it sends. A click on an entity that is not selectable
/// blurs and deselects everything. A click on a selectable entity adds it
/// to the selection when the last selected entity is of the same
/// multi-select group and either the modifier key is down or the entity
/// selects several at once by itself; otherwise the selection is replaced.
pub open spec fn click_select<G: PartialEq>(
    s: SelectionView,
    target: Entity,
    selectables: Seq<(Entity, Selectable<G>)>,
    ctrl: bool,
) -> (SelectionView, Seq<UiEvent>) {
    match table_of(selectables, target) {
        None => (SelectionView { order: Seq::empty(), last: None }, tagged(UiEventType::Blur, s.order)),
        Some(sel) => {
            let same = match s.last {
                Some(l) => match table_of(selectables, l) {
                    Some(ls) => same_group(ls.multi_select_group, sel.multi_select_group),
                    None => false,
                },
                None => false,
            };
            let focus = seq![UiEvent { event_type: UiEventType::Focus, target }];
            if same && (ctrl || sel.auto_multi_select) {
                (
                    SelectionView {
                        order: if s.order.contains(target) {
                            s.order
                        } else {
                            s.order.push(target)
                        },
                        last: Some(target),
                    },
                    focus,
                )
            } else {
                (SelectionView { order: seq![target], last: Some(target) }, tagged(UiEventType::Blur, s.order) + focus)
            }
        },
    }
}

/// The selection and the events after the first `k` interaction events:
/// only click starts change anything.
pub open spec fn selection_after<G: PartialEq>(
    s: SelectionView,
    events: Seq<UiEvent>,
    selectables: Seq<(Entity, Selectable<G>)>,
    ctrl: bool,
    k: int,
) -> (SelectionView, Seq<UiEvent>)
    decreases k,
{
    if k <= 0 || k > events.len() {
        (s, Seq::empty())
    } else {
        let (mid, out) = selection_after(s, events, selectables, ctrl, k - 1);
        if events[k - 1].event_type == UiEventType::ClickStart {
            let (next, more) = click_select(mid, events[k - 1].target, selectables, ctrl);
            (next, out + more)
        } else {
            (mid, out)
        }
    }
}

fn push_events(out: &mut Vec<UiEvent>, kind: UiEventType, list: &[Entity])
    ensures
        final(out)@ == old(out)@ + tagged(kind, list@),
{
    let ghost start = out@;
    let mut k: usize = 0;
    while k < list.len()
        invariant
            0 <= k <= list@.len(),
            out@ == start + tagged(kind, list@.subrange(0, k as int)),
        decreases list@.len() - k,
    {
        out.push(UiEvent { event_type: kind, target: list[k] });
        k += 1;
        assert(out@ =~= start + tagged(kind, list@.subrange(0, k as int)));
    }
    assert(list@.subrange(0, list@.len() as int) =~= list@);
}

/// The mouse selection: handles each click start among `events` against
/// the selectable entities, updating `selected`, and returns the focus and
/// blur events to send.
pub fn build_mouse_selection_system<G: PartialEq + Copy>(
    selected: &mut SelectedEntities,
    events: &Vec<UiEvent>,
    selectables: &Vec<(Entity, Selectable<G>)>,
    ctrl: bool,
) -> (emitted: Vec<UiEvent>)
    requires
        old(selected).wf(),
        G::obeys_eq_spec(),
    ensures
        final(selected).wf(),
        ({
            let (after, out) = selection_after(
                SelectionView { order: old(selected).order(), last: old(selected).last() },
                events@,
                selectables@,
                ctrl,
                events@.len() as int,
            );
            &&& emitted@ == out
            &&& final(selected).order() == after.order
            &&& final(selected).last() == after.last
        }),
{
    let ghost s0 = SelectionView { order: selected.order(), last: selected.last() };
    let mut emitted: Vec<UiEvent> = Vec::new();
    let mut k: usize = 0;
    while k < events.len()
        invariant
            0 <= k <= events@.len(),
            selected.wf(),
            G::obeys_eq_spec(),
            ({
                let (after, out) = selection_after(s0, events@, selectables@, ctrl, k as int);
                &&& emitted@ == out
                &&& selected.order() == after.order
                &&& selected.last() == after.last
            }),
        decreases events@.len() - k,
    {
        let event = events[k];
        if event.event_type == UiEventType::ClickStart {
            let entity = event.target;
            match find_table(selectables, entity) {
                None => {
                    push_events(&mut emitted, UiEventType::Blur, selected.entities());
                    selected.clear();
                },
                Some(selectable) => {
                    let same = match selected.last_entity() {
                        Some(last) => match find_table(selectables, last) {
                            Some(last_selectable) => same_group_exec(
                                &last_selectable.multi_select_group,
                                &selectable.multi_select_group,
                            ),
                            None => false,
                        },
                        None => false,
                    };
                    if same && (ctrl || selectable.auto_multi_select) {
                        selected.insert(entity);
                        emitted.push(UiEvent { event_type: UiEventType::Focus, target: entity });
                    } else {
                        push_events(&mut emitted, UiEventType::Blur, selected.entities());
                        selected.clear();
                        selected.insert(entity);
                        emitted.push(UiEvent { event_type: UiEventType::Focus, target: entity });
                    }
                },
            }
        }
        k += 1;
        proof {
            let (after, out) = selection_after(s0, events@, selectables@, ctrl, k as int);
            assert(emitted@ =~= out);
        }
    }
    emitted
}

} // verus!
