//! A named span of time.
use vstd::prelude::*;

verus! {

/// Marks a span of work by name, for the lifetime of the value.
pub struct Timer<'a> {
    name: &'a str,
}

impl<'a> Timer<'a> {
    /// The span's name.
    pub closed spec fn label(&self) -> Seq<char> {
        self.name@
    }

    /// Starts a span called `name`.
    pub fn new(name: &'a str) -> (t: Timer<'a>)
        ensures
            t.label() == name@,
    {
        Timer { name }
    }
}

} // verus!
