use vstd::prelude::*;

use crate::entity::Entity;
use crate::retrigger::{UiButtonAction, UiButtonActionType};
use vstd::std_specs::cmp::PartialEqSpec;

verus! {

/// A value with a stack of temporary changes on top of it: the value in
/// force is the latest change, or the initial value when none is left.
#[derive(Debug)]
pub struct ActionChangeStack<T> {
    initial_value: T,
    change_stack: Vec<T>,
}

/// The position of the first entry of `s` equal to `v`, if any.
pub open spec fn first_equal<T: PartialEq>(s: Seq<T>, v: T) -> Option<int>
    decreases s.len(),
{
    if s.len() == 0 {
        None
    } else if s[0].eq_spec(&v) {
        Some(0)
    } else {
        match first_equal(s.subrange(1, s.len() as int), v) {
            Some(k) => Some(k + 1),
            None => None,
        }
    }
}

impl<T: Copy + PartialEq> ActionChangeStack<T> {
    pub closed spec fn initial(&self) -> T {
        self.initial_value
    }

    pub closed spec fn changes(&self) -> Seq<T> {
        self.change_stack@
    }

    /// The value in force.
    pub open spec fn current(&self) -> T {
        if self.changes().len() == 0 {
            self.initial()
        } else {
            self.changes().last()
        }
    }

    pub fn new(initial_value: T) -> (r: Self)
        ensures
            r.initial() == initial_value,
            r.changes() == Seq::<T>::empty(),
    {
        ActionChangeStack { initial_value, change_stack: Vec::new() }
    }

    /// Puts `change` in force on top of the others.
    pub fn push(&mut self, change: T)
        ensures
            final(self).initial() == old(self).initial(),
            final(self).changes() == old(self).changes().push(change),
    {
        self.change_stack.push(change);
    }

    /// Takes back the earliest change equal to `change`, if there is one.
    pub fn remove(&mut self, change: &T)
        requires
            T::obeys_eq_spec(),
        ensures
            final(self).initial() == old(self).initial(),
            match first_equal(old(self).changes(), *change) {
                Some(k) => final(self).changes() == old(self).changes().remove(k),
                None => final(self).changes() == old(self).changes(),
            },
    {
        let ghost s = self.change_stack@;
        let mut i: usize = 0;
        assert(s.subrange(0, s.len() as int) =~= s);
        while i < self.change_stack.len()
            invariant
                0 <= i <= s.len(),
                T::obeys_eq_spec(),
                s == old(self).change_stack@,
                self.change_stack@ == s,
                self.initial_value == old(self).initial_value,
                first_equal(s, *change) == match first_equal(s.subrange(i as int, s.len() as int), *change) {
                    Some(k) => Some(k + i),
                    None => None,
                },
            decreases s.len() - i,
        {
            let ghost rest = s.subrange(i as int, s.len() as int);
            let same = self.change_stack[i].eq(change);
            assert(same == s[i as int].eq_spec(change));
            assert(rest[0] == s[i as int]);
            if same {
                assert(first_equal(rest, *change) == Some(0int));
                assert(first_equal(s, *change) == Some(i as int));
                self.change_stack.remove(i);
                assert(self.change_stack@ == s.remove(i as int));
                assert(s == old(self).changes());
                assert(self.changes() == old(self).changes().remove(i as int));
                return;
            }
            assert(rest.subrange(1, rest.len() as int) =~= s.subrange(i + 1, s.len() as int));
            i += 1;
        }
    }

    pub fn is_empty(&self) -> (r: bool)
        ensures
            r == (self.changes().len() == 0),
    {
        self.change_stack.len() == 0
    }

    /// The value in force.
    pub fn current_value(&self) -> (r: T)
        ensures
            r == self.current(),
    {
        if self.change_stack.len() == 0 {
            self.initial_value
        } else {
            self.change_stack[self.change_stack.len() - 1]
        }
    }
}

/// The position of the first entry of `m` for entity `e`.
pub open spec fn entry_of<S>(m: Seq<(Entity, S)>, e: Entity) -> Option<int>
    decreases m.len(),
{
    if m.len() == 0 {
        None
    } else if m[0].0 == e {
        Some(0)
    } else {
        match entry_of(m.subrange(1, m.len() as int), e) {
            Some(k) => Some(k + 1),
            None => None,
        }
    }
}

fn find_entry<S>(m: &Vec<(Entity, S)>, e: Entity) -> (r: Option<usize>)
    ensures
        r is Some <==> entry_of(m@, e) is Some,
        r is Some ==> entry_of(m@, e) == Some(r->0 as int) && r->0 < m@.len() && m@[r->0 as int].0 == e,
{
    let mut i: usize = 0;
    assert(m@.subrange(0, m@.len() as int) =~= m@);
    while i < m.len()
        invariant
            0 <= i <= m@.len(),
            entry_of(m@, e) == match entry_of(m@.subrange(i as int, m@.len() as int), e) {
                Some(k) => Some(k + i),
                None => None,
            },
        decreases m@.len() - i,
    {
        let ghost rest = m@.subrange(i as int, m@.len() as int);
        assert(rest[0] == m@[i as int]);
        if m[i].0 == e {
            return Some(i);
        }
        assert(rest.subrange(1, rest.len() as int) =~= m@.subrange(i + 1, m@.len() as int));
        i += 1;
    }
    None
}

/// What an action does to one map of change stacks, given the target's
/// present value (`None` where it lacks the component): the map after, and
/// the value to write into the target, if any.
pub open spec fn stacks_after(
    before: Seq<(Entity, ActionChangeStack<u32>)>,
    after: Seq<(Entity, ActionChangeStack<u32>)>,
    target: Entity,
    set: bool,
    value: u32,
    current: Option<u32>,
    written: Option<u32>,
) -> bool {
    match current {
        None => (after == before && written is None),
        Some(cur) => if set {
            &&& written == Some(value)
            &&& match entry_of(before, target) {
                Some(k) => {
                    &&& after.len() == before.len()
                    &&& forall|m: int| 0 <= m < before.len() && m != k ==> after[m] == before[m]
                    &&& after[k].0 == target
                    &&& after[k].1.initial() == before[k].1.initial()
                    &&& after[k].1.changes() == before[k].1.changes().push(value)
                },
                None => {
                    &&& after.len() == before.len() + 1
                    &&& forall|m: int| 0 <= m < before.len() ==> after[m] == before[m]
                    &&& after[before.len() as int].0 == target
                    &&& after[before.len() as int].1.initial() == cur
                    &&& after[before.len() as int].1.changes() == seq![value]
                },
            }
        } else {
            match entry_of(before, target) {
                None => (after == before && written is None),
                Some(k) => {
                    let old_changes = before[k].1.changes();
                    let new_changes = match first_equal(old_changes, value) {
                        Some(j) => old_changes.remove(j),
                        None => old_changes,
                    };
                    &&& written == Some(
                        if new_changes.len() == 0 {
                            before[k].1.initial()
                        } else {
                            new_changes.last()
                        },
                    )
                    &&& if new_changes.len() == 0 {
                        after == before.remove(k)
                    } else {
                        &&& after.len() == before.len()
                        &&& forall|m: int| 0 <= m < before.len() && m != k ==> after[m] == before[m]
                        &&& after[k].0 == target
                        &&& after[k].1.initial() == before[k].1.initial()
                        &&& after[k].1.changes() == new_changes
                    }
                },
            }
        },
    }
}

/// Applies a set or unset action to one map of change stacks.
fn apply_to_stacks(
    stacks: &mut Vec<(Entity, ActionChangeStack<u32>)>,
    target: Entity,
    set: bool,
    value: u32,
    current: Option<u32>,
) -> (written: Option<u32>)
    ensures
        stacks_after(old(stacks)@, final(stacks)@, target, set, value, current, written),
{
    let ghost before = stacks@;
    match current {
        None => None,
        Some(cur) => {
            let pos = find_entry(stacks, target);
            if set {
                match pos {
                    Some(k) => {
                        proof {
                            match entry_of(before, target) {
                                Some(k2) => {
                                    assert(k2 == k as int);
                                },
                                None => {},
                            }
                        }
                        let (e, mut st) = stacks.remove(k);
                        st.push(value);
                        stacks.insert(k, (e, st));
                        assert(forall|m: int| 0 <= m < before.len() && m != k ==> stacks@[m] == before[m]);
                        assert(stacks_after(before, stacks@, target, set, value, current, Some(value)));
                    },
                    None => {
                        let mut st = ActionChangeStack::new(cur);
                        st.push(value);
                        assert(st.changes() =~= seq![value]);
                        stacks.push((target, st));
                        assert(stacks_after(before, stacks@, target, set, value, current, Some(value)));
                    },
                }
                Some(value)
            } else {
                match pos {
                    None => None,
                    Some(k) => {
                        let (e, mut st) = stacks.remove(k);
                        assert(e == before[k as int].0 && st == before[k as int].1);
                        proof {
                            match entry_of(before, target) {
                                Some(k2) => {
                                    assert(k2 == k as int);
                                },
                                None => {},
                            }
                        }
                        assert(e == target);
                        let ghost st0 = st;
                        st.remove(&value);
                        let now = st.current_value();
                        assert(st.initial() == before[k as int].1.initial());
                        assert(st.changes() == match first_equal(st0.changes(), value) {
                            Some(j) => st0.changes().remove(j),
                            None => st0.changes(),
                        });
                        if st.is_empty() {
                            assert(stacks@ =~= before.remove(k as int));
                        } else {
                            stacks.insert(k, (e, st));
                            assert(forall|m: int| 0 <= m < before.len() && m != k ==> stacks@[m] == before[m]);
                        }
                        assert(stacks_after(before, stacks@, target, set, value, current, Some(now)));
                        Some(now)
                    },
                }
            }
        },
    }
}

/// The change stacks of the buttons' text colours and images: which
/// temporary values are in force over the value each button had at first.
pub struct UiButtonSystem {
    text_color_map: Vec<(Entity, ActionChangeStack<u32>)>,
    image_map: Vec<(Entity, ActionChangeStack<u32>)>,
}

impl UiButtonSystem {
    pub closed spec fn text_colors(&self) -> Seq<(Entity, ActionChangeStack<u32>)> {
        self.text_color_map@
    }

    pub closed spec fn images(&self) -> Seq<(Entity, ActionChangeStack<u32>)> {
        self.image_map@
    }

    pub fn new() -> (r: UiButtonSystem)
        ensures
            r.text_colors().len() == 0,
            r.images().len() == 0,
    {
        UiButtonSystem { text_color_map: Vec::new(), image_map: Vec::new() }
    }

    /// Applies one button action. `current` is the target's present text
    /// colour for a colour action, or its present image for an image
    /// action (`None` where it has none). Returns the value to give the
    /// target, if any: a set puts its value in force; an unset takes it
    /// back and restores the latest value still in force.
    pub fn apply(&mut self, action: &UiButtonAction, current: Option<u32>) -> (r: Option<u32>)
        ensures
            match action.event_type {
                UiButtonActionType::SetTextColor(c) => final(self).images() == old(self).images()
                    && stacks_after(old(self).text_colors(), final(self).text_colors(), action.target, true, c, current, r),
                UiButtonActionType::UnsetTextColor(c) => final(self).images() == old(self).images()
                    && stacks_after(old(self).text_colors(), final(self).text_colors(), action.target, false, c, current, r),
                UiButtonActionType::SetImage(i) => final(self).text_colors() == old(self).text_colors()
                    && stacks_after(old(self).images(), final(self).images(), action.target, true, i, current, r),
                UiButtonActionType::UnsetImage(i) => final(self).text_colors() == old(self).text_colors()
                    && stacks_after(old(self).images(), final(self).images(), action.target, false, i, current, r),
            },
    {
        match action.event_type {
            UiButtonActionType::SetTextColor(c) => apply_to_stacks(&mut self.text_color_map, action.target, true, c, current),
            UiButtonActionType::UnsetTextColor(c) => apply_to_stacks(&mut self.text_color_map, action.target, false, c, current),
            UiButtonActionType::SetImage(i) => apply_to_stacks(&mut self.image_map, action.target, true, i, current),
            UiButtonActionType::UnsetImage(i) => apply_to_stacks(&mut self.image_map, action.target, false, i, current),
        }
    }
}

} // verus!
