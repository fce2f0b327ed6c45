//! Discrete-event simulation engine: event calendar, queues, servers and
//! the scheduling state machines of the queueing-network and LLM-serving models.

pub mod calendar;
pub mod clock;
pub mod event;
pub mod heap;
pub mod llm;
pub mod network;
pub mod queue;
pub mod server;
pub mod sim;
pub mod stats;
