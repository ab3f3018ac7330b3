use vstd::prelude::*;

use crate::hierarchy::{
    children_consistent, keeps_layout_parents, parent_update, same_identity, synced_slot, wf, UiWorld,
};

verus! {

/// A name given to an entity.
#[derive(Clone, Debug)]
pub struct Named {
    pub name: String,
}

impl Named {
    pub fn new(name: String) -> (r: Named)
        ensures
            r.name == name,
    {
        Named { name }
    }
}

/// Marks a UI element that the pointer can drag.
#[derive(Clone, Copy, Debug)]
pub struct Draggable;

/// The TrueType font format.
#[derive(Clone, Copy, Debug)]
pub struct TtfFormat;

impl TtfFormat {
    /// The name of the format.
    pub fn name(&self) -> (r: &'static str)
        ensures
            r@ == "TTF"@,
    {
        proof {
            reveal_strlit("TTF");
        }
        "TTF"
    }
}

/// The hierarchy stage of a frame: records missing previous parents and
/// synchronises `Children` with `Parent` (see `parent_update`).
#[derive(Clone, Copy, Debug)]
pub struct TransformBundle;

impl TransformBundle {
    pub fn run(&self, world: &mut UiWorld)
        requires
            wf(*old(world)),
        ensures
            wf(*final(world)),
            children_consistent(*final(world)),
            final(world).len() == old(world).len(),
            forall|k: int| 0 <= k < old(world).len() ==> same_identity(#[trigger] final(world).slot(k), old(world).slot(k)),
            keeps_layout_parents(*old(world), *final(world)),
            forall|k: int| 0 <= k < old(world).len() ==> synced_slot(*old(world), *final(world), k),
    {
        parent_update(world);
    }
}

/// Characters that text input ignores: control characters and the private
/// use areas.
pub open spec fn skipped_char(c: char) -> bool {
    ||| (c as u32) < 0x20
    ||| (c as u32) == 0x7F
    ||| (0xE000 <= (c as u32) && (c as u32) <= 0xF8FF)
    ||| (0xF0000 <= (c as u32) && (c as u32) <= 0xFFFFF)
    ||| (0x100000 <= (c as u32) && (c as u32) <= 0x10FFFF)
}

pub fn should_skip_char(input: char) -> (r: bool)
    ensures
        r == skipped_char(input),
{
    let c = input as u32;
    c < 0x20 || c == 0x7F || (0xE000 <= c && c <= 0xF8FF) || (0xF0000 <= c && c <= 0xFFFFF) || (
    0x100000 <= c && c <= 0x10FFFF)
}

} // verus!
