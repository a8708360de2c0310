//! A recursive-descent disassembler core for banked LR35902 cartridges:
//! banked addresses, the instruction decoder, the ROM view and the code
//! discovery engine.

pub mod xaddr;
pub mod gbasm;
pub mod util;
pub mod tags;
pub mod anal;
pub mod naming;
