pub mod nfa;

pub use nfa::Nfa;
pub use nfa::Symbol;
