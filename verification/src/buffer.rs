//! Text storage that a literal can hold: borrowed or owned.

use vstd::prelude::*;

verus! {

/// A piece of text that is either borrowed (`&str`) or owned (`String`).
pub trait Buffer: View<V = Seq<char>> + Sized {
    /// The text as a string slice.
    fn as_str(&self) -> (s: &str)
        ensures
            s@ == self@,
    ;
}

impl<'a> Buffer for &'a str {
    fn as_str(&self) -> (s: &str) {
        *self
    }
}

impl Buffer for String {
    fn as_str(&self) -> (s: &str) {
        String::as_str(self)
    }
}

} // verus!
