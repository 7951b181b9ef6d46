//! Client settings read from the `initialize` request.

use vstd::prelude::*;

verus! {

/// The `output_parameter_names` flags of the initialization options: the
/// top-level flag and the one nested under `typeprof`, each present when the
/// option holds a JSON boolean.
#[derive(Clone, Copy, Debug, PartialEq, Eq, Structural)]
pub struct InitializeFlags {
    pub output_parameter_names: Option<bool>,
    pub typeprof_output_parameter_names: Option<bool>,
}

/// Whether signatures are rendered with parameter names: the top-level flag
/// when it is set, else the `typeprof` one, else not.
pub open spec fn parameter_names_enabled(options: Option<InitializeFlags>) -> bool {
    match options {
        None => false,
        Some(f) => match f.output_parameter_names {
            Some(v) => v,
            None => f.typeprof_output_parameter_names == Some(true),
        },
    }
}

/// Whether the client asked for parameter names in rendered signatures.
pub fn output_parameter_names_from_initialize_options(options: Option<&InitializeFlags>) -> (r: bool)
    ensures
        r == parameter_names_enabled(
            match options {
                Some(f) => Some(*f),
                None => None,
            },
        ),
{
    let options = match options {
        Some(o) => o,
        None => return false,
    };
    match options.output_parameter_names {
        Some(v) => v,
        None => match options.typeprof_output_parameter_names {
            Some(v) => v,
            None => false,
        },
    }
}

} // verus!
