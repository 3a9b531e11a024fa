//! Verifying traversal of a pack of objects through its offset index.
//!
//! A pack stores objects in full or as deltas against other objects of the
//! pack. From the index entries and the header of every pack entry the
//! [`forest`] of delta chains is built; [`resolve`] visits it tree by tree,
//! every base before its deltas; [`pack`] checks each object against the
//! checksums that the index records; and [`outcome`] sums up what was found.
//! [`index`] puts the steps together. [`order`] and [`laws`] prove what
//! holds of every traversal.

pub mod entry;
pub mod forest;
pub mod hash;
pub mod index;
pub mod laws;
pub mod loose;
pub mod order;
pub mod outcome;
pub mod pack;
pub mod resolve;
pub mod types;
