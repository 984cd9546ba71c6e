//! A verified layout-and-render engine for a tabbed, full-screen terminal
//! dashboard: a constraint-based region splitter, stateless widget renderers
//! painting into a cell buffer, a tab-selection state machine, and the pure
//! event-handling core of the application loop.

pub mod app;
pub mod buffer;
pub mod events;
pub mod layout;
pub mod markup;
pub mod style;
pub mod tabs;
pub mod widgets;
pub mod wrap;

pub use tabs::MyTabs;
