//! What a loop over a stream does after each call on the stream.
//!
//! The loops of this crate move bytes in turns: each turn calls the stream
//! once and then decides, from what the call returned alone, whether to stop,
//! to go on, to try again, or to give up. The decisions stand here.
use vstd::prelude::*;
use crate::collect::{position, runs_to};
use crate::error::Error;

verus! {

/// What follows a call that returns how many bytes it has moved.
pub enum Step {
    /// Nothing was moved: the loop is over.
    Done,
    /// That many bytes were moved, and at least one: the loop goes on.
    Advance(usize),
    /// The call was interrupted: it is made again.
    Retry,
    /// The call failed otherwise: the loop fails with the same error.
    Fail(Error),
}

impl Step {
    /// The step that follows `outcome`.
    pub open spec fn after(outcome: Result<usize, Error>) -> Step {
        match outcome {
            Ok(n) => if n == 0 {
                Step::Done
            } else {
                Step::Advance(n)
            },
            Err(e) => if e.interrupted() {
                Step::Retry
            } else {
                Step::Fail(e)
            },
        }
    }
}

/// Decides what follows one read or one write that returned `outcome`.
pub fn after_transfer(outcome: Result<usize, Error>) -> (step: Step)
    ensures
        step == Step::after(outcome),
{
    match outcome {
        Ok(n) => {
            if n == 0 {
                Step::Done
            } else {
                Step::Advance(n)
            }
        },
        Err(e) => {
            if e.is_interrupted() {
                Step::Retry
            } else {
                Step::Fail(e)
            }
        },
    }
}

/// What follows a look into a buffer in search of a byte.
pub enum Scan<'a> {
    /// The buffer was empty: the stream is at its end and the loop is over.
    Done,
    /// These bytes are taken from the front of the buffer; the flag says
    /// whether they end with the byte looked for, which ends the loop.
    Take(&'a [u8], bool),
    /// The call was interrupted: it is made again.
    Retry,
    /// The call failed otherwise: the loop fails with the same error.
    Fail(Error),
}

/// Whether `scan` is what follows `outcome` in a search for `byte`.
pub open spec fn scans(outcome: Result<&[u8], Error>, byte: u8, scan: Scan<'_>) -> bool {
    match outcome {
        Ok(bytes) => if bytes@.len() == 0 {
            scan is Done
        } else {
            &&& scan matches Scan::Take(part, last)
            &&& 0 < part@.len() <= bytes@.len()
            &&& part@ == bytes@.take(part@.len() as int)
            &&& runs_to(bytes@, byte, part@.len())
            &&& last == (bytes@[part@.len() - 1] == byte)
        },
        Err(e) => if e.interrupted() {
            scan is Retry
        } else {
            scan == Scan::Fail(e)
        },
    }
}

/// Decides what follows one look into the buffer of a stream that returned
/// `outcome`, in a search for `byte`: the bytes up to and with the first
/// `byte` are taken, or all of them where there is none.
pub fn after_fill<'a>(outcome: Result<&'a [u8], Error>, byte: u8) -> (scan: Scan<'a>)
    ensures
        scans(outcome, byte, scan),
{
    match outcome {
        Ok(bytes) => {
            if bytes.len() == 0 {
                return Scan::Done;
            }
            match position(bytes, byte) {
                Some(n) => {
                    let part = &bytes[0..n + 1];
                    assert(part@ =~= bytes@.take(n + 1));
                    assert forall|i: int| 0 <= i < n implies bytes@[i] != byte by {
                        assert(bytes@.take(n as int)[i] == bytes@[i]);
                        assert(bytes@.take(n as int).contains(bytes@[i]));
                    }
                    Scan::Take(part, true)
                },
                None => {
                    assert(bytes@ =~= bytes@.take(bytes@.len() as int));
                    assert forall|i: int| 0 <= i < bytes@.len() implies bytes@[i] != byte by {
                        assert(bytes@.contains(bytes@[i]));
                    }
                    Scan::Take(bytes, false)
                },
            }
        },
        Err(e) => {
            if e.is_interrupted() {
                Scan::Retry
            } else {
                Scan::Fail(e)
            }
        },
    }
}

} // verus!
