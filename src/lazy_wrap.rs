use vstd::prelude::*;

verus! {

/// What a lazily initialised cell holds when it is taken apart: the value,
/// if it was made, or else the function that would have made it.
pub enum LazyWrapState<T, F> {
    Initialised(T),
    Uninitialised(F),
}

} // verus!
