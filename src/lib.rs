//! A discrete-time state-transition simulation engine: policies observe a
//! state and emit keyed signals, signals are aggregated per key, and update
//! functions build the next state from the current state and the signals.

pub mod engine;
pub mod error;
pub mod exports;
pub mod prey_predator;
pub mod signals;
pub mod state;
pub mod trajectory;
pub mod value;

pub use engine::{
    cadCADConfig, check_key_partition, run_simulation, run_timestep, SimConfig, StateKeyAndUpdateFn,
    Trajectory, Update,
};
pub use error::{RunError, SimError};
pub use signals::{aggregate_signals, Signal, Signals};
pub use state::State;
pub use value::{Foo, Value, ValueError, ValueKind};
