use vstd::prelude::*;

verus! {

/// The name under which the program was started, for the messages that
/// it prints. It is handed to whoever prints; nothing keeps it behind the
/// caller's back.
#[derive(Debug)]
pub struct ProgName {
    pub name: String,
}

impl ProgName {
    /// No name yet: the empty string.
    pub fn new() -> (progname: ProgName)
        ensures
            progname.name@ == Seq::<char>::empty(),
    {
        ProgName { name: String::new() }
    }
}

/// Sets the name of the program.
pub fn set_progname(holder: &mut ProgName, progname: &str)
    ensures
        final(holder).name@ == progname@,
{
    holder.name = progname.to_owned();
}

/// The name of the program as it was set last.
pub fn get_progname(holder: &ProgName) -> (name: Option<String>)
    ensures
        name is Some,
        name->0@ == holder.name@,
{
    Some(holder.name.clone())
}

} // verus!
