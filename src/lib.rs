//! An embeddable module host: canonical module identities, dependency graph
//! construction with de-duplication, linking order, an evaluation driver and a
//! cooperative event loop, all driven by plain values handed in by the caller.

use vstd::prelude::*;

pub mod error;
pub mod specifier;
pub mod event_loop;
pub mod graph;
pub mod link;
pub mod evaluate;
