//! Parameters of an object.
use vstd::prelude::*;

verus! {

/// A parameter that can be set on an object.
pub trait Parameter<Object>: Sized {
    /// What setting the parameter does to the object.
    spec fn sets(self, before: Object, after: Object) -> bool;

    /// Sets the parameter.
    fn set_param(self, this: &mut Object)
        ensures
            self.sets(*old(this), *final(this)),
    ;
}

/// An object that has parameters.
pub trait HasParameters: Sized {
    /// Sets a parameter of the object.
    fn set<T: Parameter<Self>>(&mut self, value: T) -> (this: &mut Self)
        ensures
            value.sets(*old(self), *this),
            *final(self) == *final(this),
    {
        value.set_param(self);
        self
    }
}

} // verus!
