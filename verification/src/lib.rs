pub mod nfa;
pub mod dfa;
pub mod clike;
pub mod matcher;
pub mod replacer;
