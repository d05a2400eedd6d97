//! Core bookkeeping of the agui widget engine: the frame phases; the layout and paint
//! pipelines that track which boundaries must be re-laid or repainted; recorded scenes and
//! their flattening; pointer routing; value notification; and the plain event and identifier
//! types the engine hands to its drivers.

pub mod manager;
pub mod notifiable;
pub mod notifier;
pub mod paint;
pub mod pipeline;
pub mod pointer;
