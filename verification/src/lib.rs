//! Named, indexable collections: ordered sequences of elements that
//! can also be looked up by name.
//!
//! The collection type lives in [`nec`]; the strategies for keeping
//! its name index in step with its ordered store live in
//! [`adjustable`]; [`nameable`] lets element types carry their own
//! name.  Two configurations exist: `nec::UNEC`, where a name is held
//! once and pushing it again replaces the element in place, and
//! `nec::DNEC`, where names may repeat and lookup by name returns all
//! matches in push order.
use vstd::prelude::*;

pub mod adjustable;
pub mod nameable;
pub mod nec;

verus! {

/// A small element type with no name of its own; collections of atoms
/// are indexed under names given at insertion time.
pub struct Atom {
    pub proton: usize,
    pub neutron: usize,
}

impl Clone for Atom {
    fn clone(&self) -> (r: Self)
        ensures
            r == *self,
    {
        Atom { proton: self.proton, neutron: self.neutron }
    }
}

} // verus!
