//! What reading an input comes to.

use vstd::prelude::*;

verus! {

/// What reading some input comes to.
pub enum Outcome<T> {
    /// The input was read.
    Done(T),
    /// The input is refused, with this message.
    Failed(Seq<char>),
    /// The input breaks off where the format owes more bytes, or refers to itself: it has no
    /// meaning, and the functions of this crate do not take it.
    Broken,
}

impl<T> Outcome<T> {
    /// Whether an executable result stands for this outcome, `value` being the value that
    /// the result holds.
    pub open spec fn is_result<U>(self, r: Result<U, String>, value: spec_fn(U) -> T) -> bool {
        match self {
            Outcome::Done(t) => r matches Ok(u) && value(u) == t,
            Outcome::Failed(m) => r matches Err(e) && e@ == m,
            Outcome::Broken => false,
        }
    }
}

} // verus!
