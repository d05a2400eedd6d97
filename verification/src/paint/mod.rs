pub mod canvas;
pub mod compositing;
pub mod scene;
