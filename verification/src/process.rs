//! The table of running processes.
use crate::wide;
use std::collections::HashMap;
use vstd::prelude::*;

verus! {

/// What is known of a process.
#[derive(Debug)]
pub struct ProcessInfo {
    /// Name of its program file.
    pub name: String,
}

/// The program name of each process.
pub open spec fn names_of(procs: Map<u32, ProcessInfo>) -> Map<u32, Seq<char>> {
    procs.map_values(|p: ProcessInfo| p.name@)
}

/// Notes a process whose program name stands in `exe` up to the first zero unit.
pub fn note_process(procs: &mut HashMap<u32, ProcessInfo>, pid: u32, exe: &[u16])
    ensures
        names_of(final(procs)@) == names_of(old(procs)@).insert(
            pid,
            wide::decode_utf16(wide::before_nul(exe@)),
        ),
{
    let name = wide::from_wide(exe);
    procs.insert(pid, ProcessInfo { name });
    assert(names_of(procs@) == names_of(old(procs)@).insert(pid, name@));
}

} // verus!
