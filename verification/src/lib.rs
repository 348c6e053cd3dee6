//! A robots.txt matcher: a robots file is compiled, for one crawler, into
//! an automaton that decides in one pass over a URL path whether the
//! crawler may fetch it.
//!
//! - [`parse`] reads a robots file line by line and group by group, and
//!   compiles the rules of the group that names the crawler most closely.
//! - [`nfa`] holds the matcher that follows a path through all the states
//!   that the rules leave open, and [`dfa`] the matcher that follows it
//!   through one state at a time.
//! - [`rule`], [`dedupe`], [`trie`] and [`delay`] hold what both builders
//!   share: the rules and their order, the rules without doubles, the prefix
//!   tree that they span, and the crawl delay.
//! - [`literal`], [`anchored`], [`wildcard`] and [`deterministic`] prove what
//!   the matchers answer for patterns of the kinds that they get right.
//! - [`size`] proves how large the automata get at most.

pub mod rule;
pub mod trie;
pub mod delay;
pub mod dedupe;
pub mod dfa;
pub mod nfa;
pub mod parse;
pub mod literal;
pub mod anchored;
pub mod wildcard;
pub mod deterministic;
pub mod size;

pub use nfa::Cylon;
pub use parse::Compiler;
