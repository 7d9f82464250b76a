pub mod system_result;

use vstd::prelude::*;
use std::marker::PhantomData;

verus! {

/// A system made of a function `f` over the injected parameters `Input`; it holds
/// no `Input`, only its type.
pub struct FunctionSystem<Input, F> {
    f: F,
    _layout: PhantomData<Input>,
}

} // verus!
