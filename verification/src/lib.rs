pub mod cli;
pub mod commands;
pub mod cycles;
pub mod error;
pub mod forest;
pub mod git;
pub mod hooks;
pub mod journal;
pub mod json;
pub mod legacy;
pub mod linkage;
pub mod lock;
pub mod mcp;
pub mod reconcile;
pub mod render;
pub mod repair;
pub mod scan;
pub mod sharing;
pub mod states;
pub mod store;
pub mod task;
pub mod text;
pub mod time;
pub mod tools;
pub mod tree;
pub mod views;
