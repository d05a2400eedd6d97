pub mod display_name;
pub mod event;
pub mod plugin;
pub mod render;
pub mod widget;
pub mod tree;
pub mod spawn;
pub mod widgets;
