//! Runtime configuration and feature flags, verified.
//!
//! * [`schema`]: option schemas per namespace, read from schema documents,
//!   and whole-object validation of values.
//! * [`options`]: the value store: reads that fall back to schema defaults,
//!   `isset`, and reloads that keep the values in force when new ones do not
//!   validate.
//! * [`context`]: the attributes a feature is evaluated against, and their
//!   deterministic bucket id.
//! * [`features`]: the feature configuration format and its evaluation.
//! * [`overrides`]: scoped substitutions of option values for tests.
//! * [`cli`]: checks used by the tooling that builds values files.
//! * [`json`], [`text`]: the JSON model and text helpers they share.
use vstd::prelude::*;

pub mod cli;
pub mod evolution;
pub mod context;
pub mod features;
pub mod json;
pub mod options;
pub mod overrides;
pub mod schema;
pub mod text;
