use vstd::prelude::*;

pub mod error;
pub mod text;
pub mod decimal;
pub mod units;
pub mod circuit;
pub mod analysis;
pub mod netlist;
pub mod mna;
pub mod schematic;
pub mod layout;
pub mod editor;
pub mod properties;
pub mod export;

verus! {
} // verus!
