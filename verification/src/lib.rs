//! Topic-routed publish/subscribe over a forwarding broker.
//!
//! A service registers one callback per topic, publishes a message as a
//! two-part envelope (topic, payload), and routes every received envelope to
//! the callback registered for its topic.  The modules hold the decisions
//! of that exchange; sockets, threads and channels are driven from outside.
pub mod topic;
pub mod registry;
pub mod publish;
pub mod subscribe;
pub mod relay;
pub mod console;
