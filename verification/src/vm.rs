use vstd::prelude::*;

verus! {

/// The number of registers of the virtual machine.
pub const MAX_REGISTERS_COUNT: usize = 128;

/// A value held by the virtual machine: its bits and a tag for its type.
pub struct Value {
    pub payload: u64,
    pub tag: u8,
}

} // verus!
