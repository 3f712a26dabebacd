//! Interactive, suspendable, comparison-driven merge-sort ranking.
//!
//! The core is [`ranker::MergeSortRanker`]: a bottom-up merge sort whose
//! comparison function is not a local computation but an external decision,
//! fed in one step at a time through `record_left_preferred` /
//! `record_right_preferred`, with the current comparison pair exposed
//! through `peek_left` / `peek_right`. Its behaviour is specified against
//! the abstract state in [`model`], whose laws — order fidelity,
//! determinism, termination, decision lower bound — are proved there, and
//! whose agreement with a coherent decision source is proved in
//! [`consistency`]. The items being ranked, watched films loaded from an
//! exported archive, live in [`film`].

pub mod consistency;
pub mod film;
pub mod model;
pub mod ranker;
