//! Logic-synthesis back end for memristor crossbars: a NOT/NOR netlist is
//! parsed into a table of gates, scheduled (ASAP, ALAP, list) and placed on a
//! crossbar, and the result is rendered as text reports.
//!
//! `process_netlist` runs the whole pipeline on the text of a netlist; the
//! modules hold its stages, each of which can be called on its own.
pub mod chunking;
pub mod limits;
pub mod error;
pub mod crossbar;
pub mod circuit;
pub mod sorting;
pub mod text;
pub mod mapper;
pub mod parser;
pub mod scheduler;
pub mod generator;
pub mod pipeline;

pub use crate::chunking::{calculate_chunk_size, chunk_size_for};
pub use crate::circuit::{Circuit, Node, TableGate};
pub use crate::crossbar::{CellId, CrossbarMapping, MemristiveGate};
pub use crate::error::{ParseError, SynthesisError};
pub use crate::pipeline::{generate_reports, process_netlist, schedule_netlist, Failure, Reports, Stage};
pub use crate::limits::{
    MAX_COL, MAX_CPY, MAX_FANIN, MAX_GATES, MAX_GATES_LEVEL, MAX_LEVEL, MAX_LEVELS, MAX_PI,
    MAX_ROW, OUT_BIAS,
};
