pub mod text;
pub mod paths;
pub mod project;
pub mod json;
pub mod literal;
pub mod ir;
pub mod patch;
pub mod compile;
pub mod log;
pub mod cli;
pub mod sync;
pub mod hooks;
