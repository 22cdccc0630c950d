pub mod text;
pub mod parser;
pub mod pipeline;
pub mod aliases;
pub mod builtins;
pub mod executor;
pub mod shell;
