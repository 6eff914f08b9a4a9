use vstd::prelude::*;

use crate::complex::spec_one;
use crate::configuration::Configuration;
use crate::universe::{combined_of, Universe};
use crate::configuration::views;

verus! {

/// The arguments of a run: the file that holds the starting state, if any.
pub struct RunCmd {
    pub state_file: Option<String>,
}

/// The universe that a run starts from: the state loaded from the file that
/// `args` names, where it names one, else the vacuum.
pub fn run(args: &RunCmd, loaded: Vec<Configuration>) -> (u: Universe)
    requires
        forall|k: int| 0 <= k < loaded@.len() ==> (#[trigger] loaded@[k]).wf(),
    ensures
        u.wf(),
        u.is_even_step,
        u.step_count == 0,
        args.state_file is Some ==> u.state@ == loaded@ && combined_of(
            u.combined_state@,
            views(u.state@),
        ),
        args.state_file is None ==> u.state@.len() == 1 && u.state@[0]@ == (
            spec_one(),
            Seq::<crate::coordinates::Coordinates>::empty(),
        ) && u.combined_state@.len() == 0,
{
    match &args.state_file {
        Some(_) => Universe::from_state(loaded),
        None => {
            let u = Universe::new();
            assert(u.state@[0].living_cells@ =~= Seq::<crate::coordinates::Coordinates>::empty());
            u
        },
    }
}

} // verus!
