//! Client-side parameter binding for SurrealQL queries: turns values into a
//! name-to-value parameter map and assembles multi-statement programs.
pub mod binding;
pub mod query;
pub mod surql;
pub mod value;
