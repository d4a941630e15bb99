//! Ordered parallel streaming: the decisions of a pipeline that transforms
//! every element of a sequence on a pool of workers and reports the results
//! in the original order.
//!
//! `control` is the shared control word, `reorder` the coordinator that
//! restores order, `pipeline` what the dispatcher and the workers decide.
pub mod control;
pub mod reorder;
pub mod pipeline;
