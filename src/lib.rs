//! FIRST, FOLLOW and selection-set analysis of context-free grammars written
//! in a small BNF-like notation, with an LL(1) check and a predictive parser
//! skeleton built from the selection sets.

pub mod first;
pub mod follow;
pub mod grammar;
pub mod laws;
pub mod lines;
pub mod selection;
pub mod skeleton;
pub mod symbols;
pub mod text;
pub mod walk;

pub use first::first;
pub use follow::follow;
pub use grammar::{find_rule, is_terminal_symbol, Production, Rule};
pub use lines::{get_file_lines, join_lines, valid_string};
pub use selection::{check_first_plus, disjoint, first_plus, SelectionReport};
pub use skeleton::{
    generate_code, generate_parser, nonterminals, render_procedure, Branch, Procedure, Step,
};
pub use symbols::SymbolSet;
pub use text::GrammarError;
