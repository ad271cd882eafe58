//! A workflow execution engine for a personal-automation launcher.
//!
//! Workflows are directed graphs of typed nodes. A trigger (a keyword or a
//! keyboard shortcut) selects an entry node; the executor walks the graph
//! one hop at a time and hands every hop to an external driver, which may
//! answer an interactive prompt before resuming the walk.
pub mod clock;
pub mod error;
pub mod executor;
pub mod json;
pub mod link;
pub mod node;
pub mod params;
pub mod prompt;
pub mod template;
pub mod text;
pub mod trigger;
pub mod workflow;
