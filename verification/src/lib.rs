//! Replicated data types (counters, an observed-remove set, a replicated
//! growable array), the clocks they are built on, and a causal-broadcast
//! layer, each with a machine-checked contract.

pub mod axiom_verify;
pub mod causal_broadcast;
pub mod gcounter;
pub mod hlc;
pub mod maps;
pub mod orset;
pub mod pncounter;
pub mod rga;
pub mod vector_clock;

pub use axiom_verify::join_in_order;
pub use causal_broadcast::{CausalProcess, Message, Network};
pub use gcounter::{GCounter, GCounterOp, TlaGCounterState};
pub use hlc::{Hlc, HlcClock};
pub use orset::{ORSet, ORSetOp, TlaORSetState};
pub use pncounter::{PNCounter, PNCounterOp, TlaPNCounterState};
pub use rga::{ElementId, Rga, TlaRgaState};
pub use vector_clock::{ReplicaId, VectorClock};
