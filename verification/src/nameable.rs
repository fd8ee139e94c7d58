//! The capability an element type may offer to report its own name.
use vstd::prelude::*;

verus! {

/// Implemented by element types that carry their own name; collections
/// then accept such elements without an explicit name at the push.
pub trait Nameable {
    /// The name the value reports for itself.
    spec fn spec_name(&self) -> Seq<char>;

    /// Return the value's own name.
    fn get_name(&self) -> (r: &str)
        ensures
            r@ == self.spec_name(),
    ;
}

} // verus!
