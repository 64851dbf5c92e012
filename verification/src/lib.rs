pub mod bitset;
pub mod collections;
pub mod text;
pub mod names;
pub mod grammar;
pub mod extend;
pub mod counting;
pub mod lr0;
pub mod ll1;
pub mod lalr1;
pub mod lr1;
pub mod table;
pub mod lexer;
pub mod driver;
pub mod pipeline;
pub mod printer;
pub mod laws;
pub mod show_ll;
pub mod show_lr;
pub mod simple;
pub mod playground;
pub mod gen_fmt;
pub mod simple_grammar;
