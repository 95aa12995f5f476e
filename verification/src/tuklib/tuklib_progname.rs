use vstd::prelude::*;
use crate::tuklib::common::{set_progname, ProgName};

verus! {

/// Takes the name of the program from the first argument of the command
/// line.
pub fn tuklib_progname_init(holder: &mut ProgName, argv: &str)
    ensures
        final(holder).name@ == argv@,
{
    set_progname(holder, argv);
}

} // verus!
