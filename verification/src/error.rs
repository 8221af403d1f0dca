//! What can go wrong.

use crate::basket::Bk;
use crate::loc::{loc_text, Loc};
use crate::number::{dec, dec_int, push_dec, push_int};
use crate::text::{append_str, string_of};
use vstd::prelude::*;

verus! {

/// Why a dataization did not come to an end.
#[derive(Clone, Copy, Debug, PartialEq, Eq, Structural)]
pub enum Failure {
    /// A whole tick changed nothing.
    Stuck,
    /// The ticks allowed were used up.
    TooManyCycles,
    /// An atom read a slot that its basket does not have.
    EmptySlot(Bk, Loc),
    /// An atom divided by zero in the given basket.
    DivisionByZero(Bk),
    /// The given slot leads to an object or a basket that does not exist,
    /// or to nothing at all.
    BadReference(Bk, Loc),
    /// No further basket can be numbered.
    ArenaFull,
}

/// Any failure of the library.
#[derive(Debug, PartialEq, Eq)]
pub enum Error {
    /// A program text was not understood.
    EmuFromStrFailed(String),
    /// An object text was not understood.
    ObjectFromStrFailed(String),
    /// A basket text was not understood.
    BasketFromStrFailed(String),
    /// The dataization failed after the given number of ticks.
    EmuFailure(Failure, usize),
}

/// What is said of a failure.
pub open spec fn failure_text(f: Failure) -> Seq<char> {
    match f {
        Failure::Stuck => "We are stuck, no slot has changed"@,
        Failure::TooManyCycles => "Too many cycles, most probably endless recursion"@,
        Failure::EmptySlot(bk, loc) => "Can't find "@ + loc_text(loc) + " in β"@ + dec_int(bk as int),
        Failure::DivisionByZero(bk) => "Division by zero in β"@ + dec_int(bk as int),
        Failure::BadReference(bk, loc) => "Can't resolve "@ + loc_text(loc) + " in β"@ + dec_int(
            bk as int,
        ),
        Failure::ArenaFull => "Too many baskets"@,
    }
}

/// What is said of an error.
pub open spec fn error_text(e: Error) -> Seq<char> {
    match e {
        Error::EmuFromStrFailed(s) => "EmuFromStrFailed: "@ + s@,
        Error::ObjectFromStrFailed(s) => "ObjectFromStrFailed: "@ + s@,
        Error::BasketFromStrFailed(s) => "BasketFromStrFailed: "@ + s@,
        Error::EmuFailure(f, cycles) => "EmuFailure: "@ + failure_text(f) + ", after cycle #"@
            + dec(cycles as nat),
    }
}

impl From<String> for Error {
    /// A message becomes the failure to understand a program text.
    fn from(e: String) -> (r: Error) {
        Error::EmuFromStrFailed(e)
    }
}

impl vstd::std_specs::convert::FromSpecImpl<String> for Error {
    open spec fn obeys_from_spec() -> bool {
        true
    }

    open spec fn from_spec(e: String) -> Error {
        Error::EmuFromStrFailed(e)
    }
}

impl Failure {
    /// Appends what is said of the failure.
    pub fn write(&self, out: &mut Vec<char>)
        ensures
            final(out)@ == old(out)@ + failure_text(*self),
    {
        match self {
            Failure::Stuck => {
                append_str(out, "We are stuck, no slot has changed");
            },
            Failure::TooManyCycles => {
                append_str(out, "Too many cycles, most probably endless recursion");
            },
            Failure::EmptySlot(bk, loc) => {
                append_str(out, "Can't find ");
                loc.write(out);
                append_str(out, " in β");
                push_int(out, *bk as i64);
                assert(out@ =~= old(out)@ + failure_text(*self));
            },
            Failure::DivisionByZero(bk) => {
                append_str(out, "Division by zero in β");
                push_int(out, *bk as i64);
                assert(out@ =~= old(out)@ + failure_text(*self));
            },
            Failure::BadReference(bk, loc) => {
                append_str(out, "Can't resolve ");
                loc.write(out);
                append_str(out, " in β");
                push_int(out, *bk as i64);
                assert(out@ =~= old(out)@ + failure_text(*self));
            },
            Failure::ArenaFull => {
                append_str(out, "Too many baskets");
            },
        }
    }

    /// What is said of the failure.
    pub fn to_string(&self) -> (r: String)
        ensures
            r@ == failure_text(*self),
    {
        let mut out: Vec<char> = Vec::new();
        self.write(&mut out);
        string_of(&out)
    }
}

impl Error {
    /// What is said of the error.
    pub fn to_string(&self) -> (r: String)
        ensures
            r@ == error_text(*self),
    {
        let mut out: Vec<char> = Vec::new();
        match self {
            Error::EmuFromStrFailed(s) => {
                append_str(&mut out, "EmuFromStrFailed: ");
                append_str(&mut out, s.as_str());
            },
            Error::ObjectFromStrFailed(s) => {
                append_str(&mut out, "ObjectFromStrFailed: ");
                append_str(&mut out, s.as_str());
            },
            Error::BasketFromStrFailed(s) => {
                append_str(&mut out, "BasketFromStrFailed: ");
                append_str(&mut out, s.as_str());
            },
            Error::EmuFailure(f, cycles) => {
                append_str(&mut out, "EmuFailure: ");
                f.write(&mut out);
                append_str(&mut out, ", after cycle #");
                push_dec(&mut out, *cycles as u64);
                assert(out@ =~= error_text(*self));
            },
        }
        string_of(&out)
    }
}

} // verus!
