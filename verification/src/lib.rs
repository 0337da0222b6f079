//! A typed program-synthesis engine.
//!
//! Given a library of typed primitive operators ("neurons") and one or more
//! target values, the engine searches for a composed expression tree
//! ("connection") whose evaluation most closely matches each target under a
//! domain heuristic. Callers supply primitives plus input-bound nullary
//! operators, train a program against training outputs, then rebind the input
//! primitives and evaluate the same program against test inputs.
#![verifier::loop_isolation(false)]

pub mod arc;
pub mod brain;
pub mod connection;
pub mod grid;
pub mod neuron;
pub mod primitives;
pub mod utility;

pub use arc::Pairs;
pub use arc::Task;
pub use brain::Brain;
pub use brain::Pair;
pub use connection::Connection;
pub use connection::ConnectionValue;
pub use connection::EngineError;
pub use grid::Grid;
pub use neuron::ColorMap;
pub use neuron::Distance;
pub use neuron::Evaluator;
pub use neuron::Neuron;
pub use neuron::NeuronValue;
pub use neuron::ValueType;
