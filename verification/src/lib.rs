//! Accessibility tree building and GPU-selection logic of a UI framework.
pub mod node;
pub mod stack;
pub mod builder;
pub mod a11y;
pub mod adapter;
pub mod pci;
pub mod style;
pub mod shape;

pub use style::{div, CursorStyle, Styled};
