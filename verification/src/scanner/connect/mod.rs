pub mod models;
pub mod scanner;
