//! What one player does in one video frame.

use vstd::prelude::*;

verus! {

/// One console's input for one frame.
#[derive(Clone, Copy, PartialEq, Eq, Hash, Debug)]
pub struct Input {
    /// Active-high key bits.
    pub keys: u32,
    /// Stylus position, or `None` for a lifted stylus.
    pub touch: Option<(u16, u16)>,
}

impl Input {
    /// The given keys held, with the stylus lifted.
    pub fn keys(keys: u32) -> (input: Self)
        ensures
            input == (Input { keys, touch: None }),
    {
        Input { keys, touch: None }
    }

    /// The stylus held at a point, with no key down.
    pub fn touch(x: u16, y: u16) -> (input: Self)
        ensures
            input == (Input { keys: 0, touch: Some((x, y)) }),
    {
        Input { keys: 0, touch: Some((x, y)) }
    }
}

impl Default for Input {
    /// Nothing held: no key down, the stylus lifted.
    fn default() -> (input: Self)
        ensures
            input == (Input { keys: 0, touch: None }),
    {
        Input { keys: 0, touch: None }
    }
}

} // verus!
