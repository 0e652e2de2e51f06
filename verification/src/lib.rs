//! Hyperlink analysis of a namu wiki database dump: the `[[...]]` link scanner,
//! link counting, date-page filtering, the keyword graph and the neighbour search.

pub mod text;
pub mod scan;
pub mod tally;
pub mod graph;
pub mod filter;
pub mod rank;
pub mod gephi;
pub mod search;
pub mod network;
pub mod stopword;
