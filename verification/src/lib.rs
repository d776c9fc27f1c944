//! Memory for agents that perceives, dreams, evokes and forgets.
//!
//! A runtime takes in stimuli, collapses them in its sleep into an essence per subject, answers
//! within a token budget, and lets everything fade that is not recalled. One physics of forgetting
//! governs two layers: the semantic one (archetypes with their modes and their arc) and the episodic
//! one (exact facts).
//!
//! The engine:
//!
//! - [`entropy`]: weights that decay, and what reinforces them;
//! - [`perception`], [`traits`]: stimuli and short-term memory;
//! - [`modes`], [`synthesis`], [`vector`]: the dream, which clusters perceptions and distils them;
//! - [`archetype`], [`histogram`], [`capacity`]: long-term memory, and what its counts can hold;
//! - [`factstore`]: exact facts, deduplicated, recalled best first;
//! - [`evoke`], [`trajectory`]: what a subject is, within a budget;
//! - [`reflection`]: what an arc says that no single event does;
//! - [`runtime`]: the cycle of perceiving, breathing and evoking.
//!
//! Around it:
//!
//! - [`ast`], [`exec`], [`repl`]: the statements of the query language, their execution, a session;
//! - [`provider`], [`cache`]: the engine that embeds text, and a cache in front of it;
//! - [`index`]: approximate search at scale;
//! - [`organism`]: a runtime that decides by itself when to breathe;
//! - [`persist`]: what is kept on disk.
//!
//! Numbers are bit patterns ([`number`]), and what an operation yields on them is asked of an
//! [`arithmetic`] that the host supplies. [`ranking`], [`selection`] and [`text`] are shared tools.

pub mod archetype;
pub mod arithmetic;
pub mod ast;
pub mod cache;
pub mod capacity;
pub mod entropy;
pub mod evoke;
pub mod exec;
pub mod factstore;
pub mod histogram;
pub mod index;
pub mod modes;
pub mod number;
pub mod organism;
pub mod perception;
pub mod persist;
pub mod provider;
pub mod ranking;
pub mod reflection;
pub mod repl;
pub mod runtime;
pub mod selection;
pub mod synthesis;
pub mod text;
pub mod traits;
pub mod trajectory;
pub mod vector;
