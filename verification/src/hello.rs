//! A greeting.

use vstd::prelude::*;

verus! {

/// Greets someone by name.
pub struct Hello<'a> {
    name: &'a str,
}

impl<'a> Hello<'a> {
    pub fn new(name: &'a str) -> (r: Hello<'a>)
        ensures
            r.name() == name@,
    {
        Hello { name }
    }

    pub closed spec fn name(&self) -> Seq<char> {
        self.name@
    }

    /// "Hello " followed by the name.
    pub fn say_hi(&self) -> (r: String)
        ensures
            r@ == "Hello "@ + self.name(),
    {
        String::from_str("Hello ").concat(self.name)
    }
}

} // verus!
