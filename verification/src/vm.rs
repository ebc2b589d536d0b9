use vstd::prelude::*;

verus! {

/// An error while running a program, with its message.
#[derive(Debug)]
pub struct RuntimeError(pub String);

impl From<String> for RuntimeError {
    fn from(value: String) -> (r: RuntimeError) {
        RuntimeError(value)
    }
}

impl vstd::std_specs::convert::FromSpecImpl<String> for RuntimeError {
    open spec fn obeys_from_spec() -> bool {
        true
    }

    open spec fn from_spec(v: String) -> RuntimeError {
        RuntimeError(v)
    }
}

} // verus!
