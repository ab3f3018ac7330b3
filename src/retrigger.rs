use vstd::prelude::*;

use crate::entity::Entity;
use crate::event::{TargetedEvent, UiEvent, UiEventType};

verus! {

/// Something that collects events, such as an outbound event channel.
pub trait EventReceiver<T> {
    /// Everything received so far, in order.
    spec fn received(&self) -> Seq<T>;

    /// Receives a single event.
    fn receive_one(&mut self, value: &T)
        ensures
            final(self).received() == old(self).received().push(*value),
    ;

    /// Receives a slice of events, in order.
    fn receive(&mut self, values: &[T])
        ensures
            final(self).received() == old(self).received() + values@,
    ;
}

impl<T: Copy> EventReceiver<T> for Vec<T> {
    open spec fn received(&self) -> Seq<T> {
        self@
    }

    fn receive_one(&mut self, value: &T) {
        self.push(*value);
    }

    fn receive(&mut self, values: &[T]) {
        let ghost start = self@;
        let mut k: usize = 0;
        while k < values.len()
            invariant
                0 <= k <= values@.len(),
                self@ == start + values@.subrange(0, k as int),
            decreases values@.len() - k,
        {
            self.push(values[k]);
            k += 1;
            assert(self@ =~= start + values@.subrange(0, k as int));
        }
        assert(values@.subrange(0, values@.len() as int) =~= values@);
    }
}

/// A per-entity table that turns an inbound event into outbound actions.
pub trait EventRetrigger {
    /// The actions this table emits for `event`, in order.
    spec fn actions_for(&self, event: UiEvent) -> Seq<Self::Out>;

    type Out: Copy;

    /// Hands the actions for `event` to `receiver`.
    fn apply<R: EventReceiver<Self::Out>>(&self, event: &UiEvent, receiver: &mut R)
        ensures
            final(receiver).received() == old(receiver).received() + self.actions_for(*event),
    ;
}

/// The table of `e` in an association list of per-entity tables: the first
/// entry for `e`.
pub open spec fn table_of<T>(tables: Seq<(Entity, T)>, e: Entity) -> Option<T>
    decreases tables.len(),
{
    if tables.len() == 0 {
        None
    } else if tables[0].0 == e {
        Some(tables[0].1)
    } else {
        table_of(tables.subrange(1, tables.len() as int), e)
    }
}

/// The actions that the first `k` events retrigger.
pub open spec fn retriggered<T: EventRetrigger>(tables: Seq<(Entity, T)>, events: Seq<UiEvent>, k: int) -> Seq<T::Out>
    decreases k,
{
    if k <= 0 || k > events.len() {
        Seq::empty()
    } else {
        retriggered(tables, events, k - 1) + match table_of(tables, events[k - 1].target) {
            Some(t) => t.actions_for(events[k - 1]),
            None => Seq::empty(),
        }
    }
}

pub(crate) fn find_table<'a, T>(tables: &'a Vec<(Entity, T)>, e: Entity) -> (r: Option<&'a T>)
    ensures
        match r {
            Some(t) => table_of(tables@, e) == Some(*t),
            None => table_of(tables@, e) is None,
        },
{
    let mut k: usize = 0;
    assert(tables@.subrange(0, tables@.len() as int) =~= tables@);
    while k < tables.len()
        invariant
            0 <= k <= tables@.len(),
            table_of(tables@.subrange(k as int, tables@.len() as int), e) == table_of(tables@, e),
        decreases tables@.len() - k,
    {
        let ghost rest = tables@.subrange(k as int, tables@.len() as int);
        if tables[k].0 == e {
            assert(rest[0] == tables@[k as int]);
            return Some(&tables[k].1);
        }
        assert(rest.subrange(1, rest.len() as int) =~= tables@.subrange(k + 1, tables@.len() as int));
        k += 1;
    }
    None
}

/// The retrigger dispatcher: for each inbound event, in order, whose target
/// has a table, appends that table's actions for the event to `out`.
pub fn build_event_retrigger_system<T: EventRetrigger, R: EventReceiver<T::Out>>(
    events: &Vec<UiEvent>,
    tables: &Vec<(Entity, T)>,
    out: &mut R,
)
    ensures
        final(out).received() == old(out).received() + retriggered(tables@, events@, events@.len() as int),
{
    let ghost start = out.received();
    let mut k: usize = 0;
    while k < events.len()
        invariant
            0 <= k <= events@.len(),
            out.received() == start + retriggered(tables@, events@, k as int),
        decreases events@.len() - k,
    {
        let event = &events[k];
        match find_table(tables, event.target()) {
            Some(t) => {
                t.apply(event, out);
            },
            None => {},
        }
        k += 1;
        assert(out.received() =~= start + retriggered(tables@, events@, k as int));
    }
}

/// What a button action does.
#[derive(Clone, Copy, Debug, PartialEq, Eq, Structural)]
pub enum UiButtonActionType {
    /// Shows the image with this handle on the button.
    SetImage(u32),
    /// Takes back an image set before.
    UnsetImage(u32),
    /// Sets the text colour of the button, packed as `0xRRGGBBAA`.
    SetTextColor(u32),
    /// Takes back a text colour set before.
    UnsetTextColor(u32),
}

/// An action aimed at a button.
#[derive(Clone, Copy, Debug, PartialEq, Eq, Structural)]
pub struct UiButtonAction {
    pub event_type: UiButtonActionType,
    pub target: Entity,
}

impl UiButtonAction {
    pub fn new(event_type: UiButtonActionType, target: Entity) -> (r: UiButtonAction)
        ensures
            r == (UiButtonAction { event_type, target }),
    {
        UiButtonAction { event_type, target }
    }
}

/// The button actions to trigger on each kind of interaction.
#[derive(Clone, Debug)]
pub struct UiButtonActionRetrigger {
    pub on_click_start: Vec<UiButtonAction>,
    pub on_click_stop: Vec<UiButtonAction>,
    pub on_hover_start: Vec<UiButtonAction>,
    pub on_hover_stop: Vec<UiButtonAction>,
}

impl EventRetrigger for UiButtonActionRetrigger {
    type Out = UiButtonAction;

    open spec fn actions_for(&self, event: UiEvent) -> Seq<UiButtonAction> {
        match event.event_type {
            UiEventType::ClickStart => self.on_click_start@,
            UiEventType::ClickStop => self.on_click_stop@,
            UiEventType::HoverStart => self.on_hover_start@,
            UiEventType::HoverStop => self.on_hover_stop@,
            _ => Seq::empty(),
        }
    }

    fn apply<R: EventReceiver<UiButtonAction>>(&self, event: &UiEvent, receiver: &mut R) {
        match event.event_type {
            UiEventType::ClickStart => receiver.receive(self.on_click_start.as_slice()),
            UiEventType::ClickStop => receiver.receive(self.on_click_stop.as_slice()),
            UiEventType::HoverStart => receiver.receive(self.on_hover_start.as_slice()),
            UiEventType::HoverStop => receiver.receive(self.on_hover_stop.as_slice()),
            _ => {},
        }
    }
}

/// The button-action dispatcher: retriggers `UiButtonAction`s from
/// interaction events for every entity with a `UiButtonActionRetrigger`.
pub fn build_ui_button_action_retrigger_system(
    events: &Vec<UiEvent>,
    tables: &Vec<(Entity, UiButtonActionRetrigger)>,
    out: &mut Vec<UiButtonAction>,
)
    ensures
        final(out)@ == old(out)@ + retriggered(tables@, events@, events@.len() as int),
{
    build_event_retrigger_system(events, tables, out);
}

/// A request to play the sound with this handle once.
#[derive(Clone, Copy, Debug, PartialEq, Eq, Structural)]
pub struct UiPlaySoundAction(pub u32);

/// The sound to play on each kind of interaction, if any.
#[derive(Clone, Copy, Debug)]
pub struct UiSoundRetrigger {
    pub on_click_start: Option<UiPlaySoundAction>,
    pub on_click_stop: Option<UiPlaySoundAction>,
    pub on_hover_start: Option<UiPlaySoundAction>,
    pub on_hover_stop: Option<UiPlaySoundAction>,
}

pub open spec fn option_seq<T>(o: Option<T>) -> Seq<T> {
    match o {
        Some(v) => seq![v],
        None => Seq::empty(),
    }
}

impl EventRetrigger for UiSoundRetrigger {
    type Out = UiPlaySoundAction;

    open spec fn actions_for(&self, event: UiEvent) -> Seq<UiPlaySoundAction> {
        match event.event_type {
            UiEventType::ClickStart => option_seq(self.on_click_start),
            UiEventType::ClickStop => option_seq(self.on_click_stop),
            UiEventType::HoverStart => option_seq(self.on_hover_start),
            UiEventType::HoverStop => option_seq(self.on_hover_stop),
            _ => Seq::empty(),
        }
    }

    fn apply<R: EventReceiver<UiPlaySoundAction>>(&self, event: &UiEvent, receiver: &mut R) {
        let chosen = match event.event_type {
            UiEventType::ClickStart => self.on_click_start,
            UiEventType::ClickStop => self.on_click_stop,
            UiEventType::HoverStart => self.on_hover_start,
            UiEventType::HoverStop => self.on_hover_stop,
            _ => None,
        };
        match chosen {
            Some(action) => receiver.receive_one(&action),
            None => {
                assert(self.actions_for(*event) =~= Seq::<UiPlaySoundAction>::empty());
                assert(receiver.received() =~= receiver.received() + Seq::<UiPlaySoundAction>::empty());
            },
        }
    }
}

} // verus!
