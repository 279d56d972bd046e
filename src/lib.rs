pub mod lexeme;
pub mod scanner;
pub mod utf8;
pub mod util;
