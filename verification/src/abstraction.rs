pub mod action_abstraction;
pub mod action_translation;
