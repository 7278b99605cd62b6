//! How a child process ended.

use crate::text::{joined, signed_decimal, signed_decimal_string};
use vstd::prelude::*;

verus! {

/// The way a child process ended: by exiting with a code, or killed by a signal.
#[derive(Debug, Clone, Copy, PartialEq, Eq, Structural)]
pub enum ChildExit {
    Exited(i32),
    Signaled(i32),
}

/// What is reported of a child that signal `signal` killed.
pub open spec fn killed_message(signal: int) -> Seq<char> {
    "terminated by signal "@ + signed_decimal(signal)
}

impl ChildExit {
    /// The exit code of a child that exited by itself. A child that a signal
    /// killed has none: that is an error, whose message names the signal.
    pub fn code_not_killed(&self) -> (code: Result<i32, String>)
        ensures
            match *self {
                ChildExit::Exited(c) => code == Ok::<i32, String>(c),
                ChildExit::Signaled(n) => code is Err && code->Err_0@ == killed_message(n as int),
            },
    {
        match self {
            ChildExit::Exited(c) => Ok(*c),
            ChildExit::Signaled(n) => {
                let number = signed_decimal_string(*n);
                Err(joined("terminated by signal ", number.as_str()))
            },
        }
    }
}

} // verus!
