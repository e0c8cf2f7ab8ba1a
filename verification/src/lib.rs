pub mod clock;
pub mod commands;
pub mod done;
pub mod error;
pub mod git;
pub mod json;
pub mod knowledge;
pub mod model;
pub mod order;
pub mod protocol;
pub mod refs;
pub mod retro;
pub mod runner;
pub mod session;
pub mod table;
pub mod text;
