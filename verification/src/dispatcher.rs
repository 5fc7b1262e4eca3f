//! Choosing between the implementations of a kernel.

use vstd::prelude::*;

verus! {

/// How kernels are executed.
#[derive(Clone, Copy, Debug, PartialEq, Eq, Structural)]
pub enum ExecutionMode {
    Scalar,
}

impl Default for ExecutionMode {
    fn default() -> (r: ExecutionMode)
        ensures
            r == ExecutionMode::Scalar,
    {
        ExecutionMode::Scalar
    }
}

/// Runs a kernel with the implementation that the execution mode selects; the only
/// mode is the portable scalar one.
pub struct Dispatcher<F> {
    pub scalar: F,
    pub execution_mode: ExecutionMode,
}

impl<F> Dispatcher<F> {
    pub fn dispatch<T>(&self, params: T)
        where F: Fn(T),
        requires
            call_requires(self.scalar, (params,)),
        ensures
            self.execution_mode == ExecutionMode::Scalar ==> call_ensures(self.scalar, (params,), ()),
    {
        match self.execution_mode {
            ExecutionMode::Scalar => {
                (self.scalar)(params);
            },
        }
    }
}

} // verus!
