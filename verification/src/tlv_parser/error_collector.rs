//! The sink for the warnings that a parse recovers from.

use super::TLVParseError;
use vstd::prelude::*;

verus! {

/// A sink that keeps what it is given, in the order given, until it is
/// taken apart.
pub trait IErrorCollector<E> {
    /// What was collected so far, oldest first.
    spec fn errors(&self) -> Seq<E>;

    /// Keeps `error` behind everything collected before.
    fn add(&mut self, error: E)
        ensures
            final(self).errors() == old(self).errors().push(error),
    ;

    /// Hands out everything collected, oldest first.
    fn take_errors(self) -> (r: Vec<E>)
        ensures
            r@ == self.errors(),
    ;
}

/// The collector of the decoder's warnings.
pub struct ErrorCollector {
    _errors: Vec<TLVParseError>,
}

impl ErrorCollector {
    /// A collector that holds nothing.
    pub fn new() -> (r: ErrorCollector)
        ensures
            r.errors() == Seq::<TLVParseError>::empty(),
    {
        ErrorCollector { _errors: Vec::new() }
    }
}

impl IErrorCollector<TLVParseError> for ErrorCollector {
    closed spec fn errors(&self) -> Seq<TLVParseError> {
        self._errors@
    }

    fn add(&mut self, error: TLVParseError) {
        self._errors.push(error)
    }

    fn take_errors(self) -> (r: Vec<TLVParseError>) {
        self._errors
    }
}

} // verus!
