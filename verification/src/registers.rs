//! The register state that a task begins with.
use vstd::prelude::*;

verus! {

/// The registers set when a task begins: the general registers popped by
/// the entry code, those popped by `iretd`, and the segment registers
#[derive(Copy, Clone, Debug, PartialEq, Eq, Structural)]
pub struct EnvironmentRegisters {
    pub eax: u32,
    pub ecx: u32,
    pub edx: u32,
    pub ebx: u32,
    pub ebp: u32,
    pub esi: u32,
    pub edi: u32,
    pub eip: u32,
    pub cs: u32,
    pub flags: u32,
    pub esp: u32,
    pub ss: u32,
    pub es: u32,
    pub ds: u32,
    pub fs: u32,
    pub gs: u32,
}

} // verus!
