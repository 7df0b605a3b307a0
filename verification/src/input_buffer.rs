use vstd::prelude::*;

verus! {

/// One line of user input.
#[derive(Debug)]
pub struct InputBuffer {
    pub buffer: String,
}

impl InputBuffer {
    pub fn new() -> (b: Self)
        ensures
            b.buffer@ == Seq::<char>::empty(),
    {
        Self { buffer: String::new() }
    }

    pub fn from(buffer: String) -> (b: Self)
        ensures
            b.buffer@ == buffer@,
    {
        Self { buffer }
    }

    pub fn clear(&mut self)
        ensures
            final(self).buffer@ == Seq::<char>::empty(),
    {
        self.buffer = String::new();
    }
}

} // verus!
