pub mod codec;
pub mod gas;
pub mod indexer;
pub mod state;
pub mod store;
pub mod table;
pub mod table_states;
pub mod view;
