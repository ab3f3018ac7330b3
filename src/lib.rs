//! Hierarchical UI layout: parent/children synchronisation, transform
//! resolution into absolute integer coordinates, draw order, hit-testing,
//! pointer events and event retriggering.
//!
//! All geometry is integral. Positions and sizes are in layout units
//! (pixels or any finer unit the caller chooses); fractions of a parent's
//! size are given in units of `1 / RATIO_ONE`.

mod bundle;
mod button;
mod drag;
mod entity;
mod event;
mod hierarchy;
mod layout;
mod misc;
mod resolve;
mod retrigger;
mod selection;
mod sorted;
mod transform;

pub use bundle::UiBundle;
pub use button::{ActionChangeStack, UiButtonSystem};
pub use drag::DragWidgetSystem;
pub use entity::Entity;
pub use event::{
    get_targeted, get_targeted_below, mouse_world_position, Point, TargetedEvent, UiEvent, UiEventType, UiMouseSystem,
};
pub use hierarchy::{missing_previous_parent, parent_update, UiWorld};
pub use layout::{Anchor, ScaleMode, Stretch};
pub use misc::{should_skip_char, Draggable, Named, TransformBundle, TtfFormat};
pub use resolve::{get_parent_pixel_size, solve_transforms, build_ui_transform_system};
pub use retrigger::{
    build_ui_button_action_retrigger_system, build_event_retrigger_system, EventReceiver,
    EventRetrigger, UiButtonAction, UiButtonActionRetrigger, UiButtonActionType,
    UiPlaySoundAction, UiSoundRetrigger,
};
pub use selection::{build_mouse_selection_system, Selectable, SelectedEntities, SelectionOrderCache};
pub use sorted::{build_ui_sorting_system, SortedWidgets};
pub use transform::{place_in, Layout, Rect, Resolved, UiTransform, COORD_LIMIT, RATIO_ONE};
