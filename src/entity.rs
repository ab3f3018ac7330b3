use vstd::prelude::*;

verus! {

/// An opaque handle into the entity arena: a slot index and the generation
/// of the slot at the time the entity was created.
#[derive(Clone, Copy, Debug, PartialEq, Eq, Structural, Hash)]
pub struct Entity {
    pub index: u32,
    pub generation: u32,
}

impl Entity {
    pub fn new(index: u32, generation: u32) -> (r: Entity)
        ensures
            r.index == index,
            r.generation == generation,
    {
        Entity { index, generation }
    }

    /// The slot index of this entity.
    pub fn id(&self) -> (r: u32)
        ensures
            r == self.index,
    {
        self.index
    }
}

/// An element-wise copy of a list of entities.
pub fn copy_entities(v: &Vec<Entity>) -> (r: Vec<Entity>)
    ensures
        r@ == v@,
{
    let mut out: Vec<Entity> = Vec::new();
    let mut k: usize = 0;
    while k < v.len()
        invariant
            0 <= k <= v@.len(),
            out@ == v@.subrange(0, k as int),
        decreases v@.len() - k,
    {
        out.push(v[k]);
        k += 1;
        assert(out@ =~= v@.subrange(0, k as int));
    }
    assert(out@ =~= v@);
    out
}

/// Whether `v` holds `e`.
pub fn contains_entity(v: &Vec<Entity>, e: Entity) -> (r: bool)
    ensures
        r == v@.contains(e),
{
    let mut k: usize = 0;
    while k < v.len()
        invariant
            0 <= k <= v@.len(),
            forall|m: int| 0 <= m < k ==> v@[m] != e,
        decreases v@.len() - k,
    {
        if v[k] == e {
            return true;
        }
        k += 1;
    }
    false
}

} // verus!
