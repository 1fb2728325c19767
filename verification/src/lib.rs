//! The verified core of kernai, an agent-native RISC-V unikernel: frame
//! encoding, the JSON-RPC control plane, the process table and capability
//! lattice, the frame allocator, Sv39 page tables, the ELF loader, and trap
//! bookkeeping.
pub mod events;
pub mod console;
pub mod json;
pub mod rpc;
pub mod payload;
pub mod syscall;
pub mod phys;
pub mod frames;

pub mod mm;
pub mod owned;
pub mod traps;
pub mod elf;
pub mod idle;
