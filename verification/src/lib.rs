//! A small to-do list library: a store mapping item names to their status,
//! together with the text format in which the store is persisted.
//!
//! The store itself lives in [`store`]; the persisted format (a JSON object
//! of string keys and boolean flags) is specified and implemented in
//! [`json`]; [`laws`] states the laws that relate the operations.

use vstd::prelude::*;

pub mod json;
pub mod laws;
pub mod store;

verus! {

/// Lifecycle state of a to-do item: still to be done, or already done.
///
/// The persisted format encodes `Pending` as `true` and `Completed` as
/// `false`, the polarity the backing file has always used.
#[derive(Clone, Copy, PartialEq, Eq, Structural, Debug)]
pub enum Status {
    Pending,
    Completed,
}

/// Folds key/status pairs into a map, in order, later pairs overwriting
/// earlier ones. This is the mapping denoted by a list of records, and the
/// mathematical model of the store.
pub open spec fn map_of_pairs(
    m: Map<Seq<char>, Status>,
    kvs: Seq<(Seq<char>, Status)>,
) -> Map<Seq<char>, Status>
    decreases kvs.len(),
{
    if kvs.len() == 0 {
        m
    } else {
        map_of_pairs(m.insert(kvs[0].0, kvs[0].1), kvs.drop_first())
    }
}

} // verus!
