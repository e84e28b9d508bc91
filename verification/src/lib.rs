//! Verified core of the ordering-server project: precedence analysis of traces of federated
//! programs, streaming discovery of reorderable events, and their compact storage.
use vstd::prelude::*;

pub mod axioms;
pub mod compare;
pub mod computed;
pub mod conninfo;
pub mod enumerate;
pub mod lfenumerate;
pub mod harness;
pub mod ordering;
pub mod outputvector;
pub mod rankset;
pub mod relation;
pub mod render;
pub mod unpermutables;
pub mod seqs;
pub mod server;
pub mod text;
pub mod transpositions;
pub mod trace;

verus! {
} // verus!
