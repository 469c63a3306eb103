//! A revset engine: a small query language that names sets of commits in a
//! commit history, resolved against a view of named refs and evaluated over
//! an ancestry index.
pub mod graph;
pub mod dag;
pub mod bfs;
pub mod refs;
pub mod pattern;
pub mod view;
pub mod expr;
pub mod laws;
pub mod symbol;
pub mod resolver;
pub mod bookmark;
pub mod push;
pub mod duplicate;
