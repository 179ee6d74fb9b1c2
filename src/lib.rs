//! Incremental evaluation of a graph of numeric attributes that depend on one
//! another through `BasedOn` and `Merged` relations and are adjusted by
//! static and dynamic modifiers. Values are fixed-point integers (see `num`).
//! A requested value is recomputed only where its memoized slot is absent,
//! and every edit empties exactly the slots that rest on what it changed.

pub mod dependency;
pub mod edit;
pub mod evaluator;
pub mod modifier;
pub mod num;
pub mod propagate;
pub mod store;
pub mod topo;
pub mod utils;
