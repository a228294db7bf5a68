// A bounded-concurrency task engine: an append-only ledger of tasks, an
// admission pass that starts pending tasks in submission order while fewer
// than `capacity` run, and the accounting of completion tokens.
//
// task: the task record, its states and completion tokens.
// queue: the ledger and admission counters, with their invariant.
// theorems: the engine's moves and what every reachable state satisfies.
// simulation: the engine run in simulated time against a reference model.
use vstd::prelude::*;

pub mod queue;
pub mod simulation;
pub mod task;
pub mod theorems;

verus! {

} // verus!
