//! Process-control and breakpoint engine of a small native debugger: it
//! patches trap bytes into a traced process, classifies its stops, steps
//! over breakpoints without losing them, and walks its call stack.
//!
//! Beside it stand two small pieces of the same toolbox: the longest common
//! subsequence table of a line diff (`lcs`) and a process record
//! (`process`).
pub mod breakpoints;
pub mod debugger;
pub mod debugger_command;
pub mod inferior;
pub mod lcs;
pub mod process;
pub mod symbols;
pub mod target;
pub mod text;
pub mod trace;
pub mod word;
