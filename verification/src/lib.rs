pub mod commands;
pub mod fs;
pub mod gate;
pub mod process;
pub mod walk;
