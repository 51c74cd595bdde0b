//! A line-oriented regular-expression matcher.
//!
//! A pattern is parsed by an Earley parser for the pattern grammar
//! (`earley_parse`, `cfg`), its syntax tree is turned into an automaton by
//! Thompson's construction, closed under epsilon edges and pruned (`nfa`,
//! `compile`), and a literal with which every match begins, or ends, is
//! extracted from the automaton (`extract`). In a line the literal is
//! searched for by a Boyer-Moore scanner (`helper`), the automaton is run
//! behind its occurrences, or at every place where there is no literal
//! (`simulate`), and the matches to report are selected (`driver`,
//! `matcher`).
//!
//! `automaton` holds the mathematical model of the automata; `invariants`,
//! `language`, `semantics` and `equivalence` hold what is proved of it:
//! what compilation keeps true, what the literal has to do with the
//! accepted words, that the automaton of a pattern accepts the words that
//! the pattern denotes, and where the search for the literal and the
//! search at every place report the same matches.

pub mod text;
pub mod graph;
pub mod automaton;
pub mod nfa;
pub mod earley_parse;
pub mod cfg;
pub mod compile;
pub mod extract;
pub mod simulate;
pub mod helper;
pub mod driver;
pub mod matcher;
pub mod invariants;
pub mod language;
pub mod semantics;
pub mod equivalence;
