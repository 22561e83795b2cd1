//! The text reports: the structural netlist, the schedule statistics and the
//! stream of micro-operations. Each is a function of the circuit and the
//! mapping alone, character for character.
pub mod micro_ops;
pub mod stats;
pub mod verilog;

pub use crate::generator::micro_ops::{format_gate_name, generate_micro_ops};
pub use crate::generator::stats::{generate_schedule_stats, generate_stats, schedule_stats, ScheduleStats};
pub use crate::generator::verilog::{drives_output, format_wire, generate_magic_verilog};
