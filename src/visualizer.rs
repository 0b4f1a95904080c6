pub mod parser;
pub mod renderer;
