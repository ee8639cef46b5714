//! Selection by index from columnar arrays.
//!
//! [`take::take`] gives, for each index, the slot at that position. The laws in [`laws`] say what
//! that means for the rows of an array, [`inverse`] how a permutation is undone, and [`retention`]
//! what a result keeps alive.
pub mod array;
pub mod batch;
pub mod buffers;
pub mod bytes;
pub mod compact;
pub mod copy;
pub mod datatype;
pub mod deep;
pub mod empty;
pub mod error;
pub mod fixed;
pub mod flat;
pub mod indices;
pub mod inverse;
pub mod laws;
pub mod layout;
pub mod list;
pub mod primitive;
pub mod retention;
pub mod run;
pub mod selection;
pub mod slices;
pub mod take;
pub mod text;
pub mod union;
pub mod validity;
pub mod views;
