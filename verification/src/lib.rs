//! The configuration front-end of a container-based task runner.
//!
//! A task definition document is a YAML text that names an image, optionally
//! a default task, and the tasks by name. [`bakefile::parse`] reads such a
//! text into a [`bakefile::Bakefile`], every task in one canonical form, and
//! accepts it only if every task that it refers to exists.
//! [`bakefile::environment`] resolves the variables that a task declares
//! against a snapshot of the environment.
//!
//! The YAML reader is `serde_yaml`; what it returns is taken on trust, in
//! [`yaml`]. Everything after it is proved against the contracts that the
//! functions state: the closed schema in [`schema`], the check of the task
//! graph and the resolution of the environment in [`bakefile`], the text of
//! the diagnostics in [`format`]. What follows from those contracts for the
//! library as a whole is stated and proved in [`laws`].

pub mod bakefile;
pub mod format;
pub mod laws;
pub mod schema;
pub mod seqs;
pub mod yaml;
