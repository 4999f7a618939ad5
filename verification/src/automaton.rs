pub mod nfa;
pub mod reach;
