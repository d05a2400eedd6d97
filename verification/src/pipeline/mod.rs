pub mod phase;
pub mod registry;
pub mod order;
pub mod paint;
pub mod layout;
pub mod render_pipeline;
