pub mod hook;
pub mod render;
pub mod report;
pub mod scanner;
pub mod tally;
pub mod text;
pub mod validator;
