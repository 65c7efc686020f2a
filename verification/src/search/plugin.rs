//! Which search methods a tunable option applies to.
use crate::text::str_eq;
use vstd::prelude::*;

verus! {

/// Which search methods an option applies to.
#[derive(Clone, Copy, Debug)]
pub enum Scope {
    /// The whole NRPA family: every method that adapts a policy.
    NrpaFamily,
    /// Only the listed method ids.
    Methods(&'static [&'static str]),
}

/// Whether `ids` lists `id`.
fn lists(ids: &[&str], id: &str) -> (r: bool)
    ensures
        r == exists|i: int| 0 <= i < ids@.len() && #[trigger] ids@[i]@ == id@,
{
    let mut i: usize = 0;
    while i < ids.len()
        invariant
            i <= ids@.len(),
            forall|j: int| 0 <= j < i ==> #[trigger] ids@[j]@ != id@,
        decreases ids@.len() - i,
    {
        if str_eq(ids[i], id) {
            return true;
        }
        i = i + 1;
    }
    false
}

impl Scope {
    /// Whether this option is relevant to the method with id `method_id`. The
    /// NRPA family is `nrpa` and `perturbation` (which drives inner NRPA
    /// searches).
    pub fn applies_to(self, method_id: &str) -> (r: bool)
        ensures
            r == match self {
                Scope::NrpaFamily => method_id@ == "nrpa"@ || method_id@ == "perturbation"@,
                Scope::Methods(ids) => exists|i: int| 0 <= i < ids@.len() && #[trigger] ids@[i]@ == method_id@,
            },
    {
        match self {
            Scope::NrpaFamily => str_eq(method_id, "nrpa") || str_eq(method_id, "perturbation"),
            Scope::Methods(ids) => lists(ids, method_id),
        }
    }
}

} // verus!
