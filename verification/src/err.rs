//! Errors: what the runtime signals, and what the host makes of it.
use vstd::prelude::*;
use crate::token::Python;

verus! {

/// The kinds of error that the runtime signals through its error indicator.
#[derive(Clone, Copy, Debug, PartialEq, Eq, Structural)]
pub enum ErrorKind {
    /// An index outside a sequence.
    IndexError,
    /// A sequence that cannot grow any further.
    OverflowError,
    /// A call that the runtime cannot make sense of.
    SystemError,
}

/// An error of the runtime, taken from its error indicator.
#[derive(Clone, Copy, Debug, PartialEq, Eq, Structural)]
pub struct PyErr {
    pub kind: ErrorKind,
}

/// What a checked operation of the runtime gives back.
pub type PyResult<T> = Result<T, PyErr>;

/// The error that a fetch makes of the error indicator: the signalled one,
/// or a `SystemError` where none is signalled.
pub open spec fn fetched(indicator: Option<ErrorKind>) -> PyErr {
    match indicator {
        Some(kind) => PyErr { kind },
        None => PyErr { kind: ErrorKind::SystemError },
    }
}

impl PyErr {
    /// Takes the signalled error out of the error indicator of the runtime
    /// and leaves the indicator empty.
    pub fn fetch(py: &mut Python) -> (err: PyErr)
        ensures
            err == fetched(old(py)@.heap.error),
            final(py)@ == old(py)@.with_heap(old(py)@.heap.settle()),
    {
        let rt = py.runtime_mut();
        match rt.err_fetch() {
            Some(kind) => PyErr { kind },
            None => PyErr { kind: ErrorKind::SystemError },
        }
    }
}

/// Turns the status of a checked primitive into a result: the status -1
/// becomes the error that is fetched from the runtime, any other status is
/// success and leaves the runtime as it is.
pub fn error_on_minusone(py: &mut Python, status: i32) -> (r: PyResult<()>)
    ensures
        status != -1 ==> r == Ok::<(), PyErr>(()) && final(py)@ == old(py)@,
        status == -1 ==> r == Err::<(), PyErr>(fetched(old(py)@.heap.error)) && final(py)@ == old(
            py,
        )@.with_heap(old(py)@.heap.settle()),
{
    if status != -1 {
        Ok(())
    } else {
        Err(PyErr::fetch(py))
    }
}

/// Why an object could not be read as a host value.
#[derive(Clone, Copy, Debug, PartialEq, Eq, Structural)]
pub enum ExtractError {
    /// The object is not of the kind that the host type stands for.
    KindMismatch,
    /// The object is a number that the host type cannot hold.
    OutOfRange,
}

} // verus!
