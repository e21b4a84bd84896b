//! The engine of a vulnerability hunter: it reads rules written in Lua, finds out which of them
//! apply to a project and where, and runs their handlers there.
//!
//! A rule is a [`Checker`]. The [`Engine`] groups the scopes of the checkers that apply, and a
//! [`run::Run`] decides, step by step, what is needed next: a mapping to be built, a scope to be
//! searched, a handler to be run. What only the analysis platform can do is done by a host that the
//! run asks; [`Engine::run`] asks it until the run has ended.
//!
//! The modules [`plan`], [`partition`], [`coverage`], [`findings`], [`effort`], [`asking`] and [`laws`]
//! state what holds of every run, [`selection`] and [`reading`] what an engine and a checker are made
//! of, [`operations`] what single operations give, and [`views`] that what contracts see of a value is
//! the value.
pub mod agenda;
pub mod asking;
pub mod caches;
pub mod candidates;
pub mod checker;
pub mod context;
pub mod coverage;
pub mod drive;
pub mod effort;
pub mod engine;
pub mod error;
pub mod extensions;
pub mod findings;
pub mod groups;
pub mod laws;
pub mod operations;
pub mod parallel;
pub mod partition;
pub mod plan;
pub mod reading;
pub mod result;
pub mod run;
pub mod scope;
mod seqs;
pub mod selection;
pub mod sequential;
pub mod signature;
pub mod views;
pub mod visit;

pub use checker::Checker;
pub use context::CheckerContext;
pub use engine::Engine;
pub use error::CheckerError;
pub use extensions::CheckerExtensions;
pub use result::CheckResult;
pub use scope::CheckScope;
