//! Call graphs of spans and events: which spans are open, what a finished graph looks
//! like, and the text that displays it.

pub mod accumulate_laws;
pub mod assoc;
pub mod config;
pub mod display_laws;
pub mod event_laws;
pub mod events;
pub mod field_laws;
pub mod group_laws;
pub mod history_laws;
pub mod label;
pub mod label_laws;
pub mod layer;
pub mod metadata;
pub mod node;
pub mod render;
pub mod rows;
pub mod rows_laws;
pub mod state;
pub mod state_laws;
pub mod success_laws;
pub mod text;
pub mod text_laws;
pub mod transition_laws;
pub mod tree;
pub mod tree_laws;

pub use config::{Config, Share};
pub use events::{CounterValue, Event, EventCounts};
pub use layer::{Layer, Parent};
pub use node::GraphNode;
pub use state::State;
pub use tree::LogTree;
