//! What the operations are for, said apart from how they do it.

pub mod bindings;
pub mod calls;
pub mod clauses;
pub mod corpus;
pub mod dictionary;
pub mod explain;
pub mod highlight;
pub mod labels;
pub mod marks;
pub mod options;
pub mod planning;
pub mod query;
pub mod ranking;
pub mod requests;
pub mod retrieval;
pub mod scans;
pub mod scores;
pub mod search;
pub mod setup;
pub mod statistics;
pub mod terms;
pub mod walks;
