//! The instruction set of the query virtual machine.
use vstd::prelude::*;

verus! {

pub enum VmValue {
    Text(String),
    Integer(u32),
}

pub enum VmIdent {
    Name(String),
    Literal(String),
}

#[allow(non_camel_case_types)]
pub enum VmOPCodes {
    CALL(VmIdent),
    PUSH(VmValue),
    POP,
}

/// A virtual machine with no state yet.
pub struct Vm {}

impl Vm {
    pub fn new() -> (r: Self)
        ensures
            r == (Vm {}),
    {
        Self {}
    }

    /// Takes in a list of instructions; none has an effect yet, so every list
    /// is accepted.
    pub fn ingest(&self, instruction: Vec<VmOPCodes>) -> (r: Result<(), String>)
        ensures
            r is Ok,
    {
        Ok(())
    }
}

} // verus!
