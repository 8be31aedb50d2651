use vstd::prelude::*;

verus! {

/// A component that holds a callable action.
pub struct Action<F>(pub F);

impl<F> Action<F> {
    pub fn new(f: F) -> (r: Self)
        ensures
            r.0 == f,
    {
        Action(f)
    }
}

} // verus!
