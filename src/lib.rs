pub mod argument_error;
pub mod options;
pub mod cli;
pub mod walk;
pub mod order;
pub mod merge;
pub mod engine;
pub mod materialize;
