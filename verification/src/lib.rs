//! The logic of a full-text index for PostgreSQL.

pub mod am;
pub mod cache;
pub mod chars;
pub mod clause;
pub mod corpus;
pub mod count;
pub mod decimal;
pub mod dict;
pub mod explain;
pub mod fingerprint;
pub mod fx;
pub mod highlight;
pub mod highlight_udfs;
pub mod laws;
pub mod marks;
pub mod match_positions;
pub mod observe;
pub mod operator;
pub mod options;
pub mod plan;
pub mod plan_data;
pub mod progress;
pub mod query;
pub mod ranking;
pub mod scan;
pub mod score_call;
pub mod scorer;
pub mod scoring;
pub mod search;
pub mod selectivity;
pub mod setup;
pub mod source;
pub mod statistics;
pub mod steps;
pub mod terms;
pub mod text;
pub mod tid;
pub mod top_k;
pub mod walk;
pub mod wrapping;
