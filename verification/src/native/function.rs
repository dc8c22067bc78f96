//! Binding the host's functions to names that source text can call.

use crate::base::semantic_analyzer::SemanticError;
use crate::exec::interpreter::{binding_outcome, is_binding, Interpreter};
use crate::identity::{all_random, Identities};
use vstd::prelude::*;

verus! {

/// The handle under which the host keeps a native function. Evaluation never calls the
/// function: a call of it is something that the host is asked to do.
pub type NativeFn = u64;

/// What can have the host's functions bound to names.
pub trait NativeFunctionBindable {
    /// Binds to `name` the native function that the host keeps under `f`, which takes
    /// no arguments and returns nothing.
    fn bind_void_function(&mut self, name: &str, f: NativeFn) -> Result<(), SemanticError>;
}

impl NativeFunctionBindable for Interpreter {
    /// Binds the native function `f` to `name` with freshly drawn identities: what
    /// [`Interpreter::bind_void_function_with`] does with some supply of three.
    fn bind_void_function(&mut self, name: &str, f: NativeFn) -> (result: Result<
        (),
        SemanticError,
    >)
        ensures
            exists|ids: Seq<u128>|
                ids.len() == 3 && all_random(ids) && #[trigger] is_binding(
                    old(self)@,
                    name@,
                    f,
                    ids,
                    final(self)@,
                    binding_outcome(result),
                ),
    {
        let mut ids = Identities::draw(3);
        let ghost supplied = ids@;
        let result = self.bind_void_function_with(name, f, &mut ids);
        proof {
            assert(is_binding(old(self)@, name@, f, supplied, self@, binding_outcome(result)));
        }
        result
    }
}

} // verus!
