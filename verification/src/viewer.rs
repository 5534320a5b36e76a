//! View-model types for a program-entry and disassembly browser: the rows
//! each pane shows, without the drawing around them.

pub mod entry;
pub mod location;
pub mod raw;
