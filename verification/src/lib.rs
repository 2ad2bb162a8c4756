pub mod ast;
pub mod diagnostic;
pub mod lexer;
pub mod lua_macro;
pub mod lua_table;
pub mod names;
pub mod visitor;
