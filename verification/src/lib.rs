//! Core analysis for `cargo-oracle`: which tests verify which symbols.
//!
//! The library is layered so that each part is useful on its own:
//!
//! - [`symbol`]: the unit of attribution and its span-based identity.
//! - [`inventory`]: reads source files into symbols and tests, with [`lower`]
//!   opening the parsed tree into the shapes of [`syntax`].
//! - [`claims`]: which tests *claim* which symbols, statically.
//! - [`lint`]: whether a test's oracles could fail at all.
//! - [`report`]: the static audit, as counts and as text, whose [`sections`] stay
//!   apart.
//! - [`coverage`]: execution evidence, joined onto symbols by definition span.
//! - [`attribution`]: which test runs which symbol.
//! - [`mutation`]: whether a broken symbol makes a test fail.
//! - [`fastmutate`]: every mutation compiled in once, behind the run-time
//!   [`switch`].
//! - [`cli`]: what the command line decides and prints.
//!
//! [`text`], [`tokens`] and [`order`] hold the text functions and the ordered collections
//! that the rest is written with. The modules whose names end in `_laws` state what
//! holds of each part for every input, over what its functions promise.

pub mod attribution;
pub mod attribution_laws;
pub mod claims;
pub mod claims_laws;
pub mod cli;
pub mod coverage;
pub mod coverage_laws;
pub mod fastmutate;
pub mod fastmutate_laws;
pub mod inventory;
pub mod inventory_laws;
pub mod lint;
pub mod lint_laws;
pub mod lower;
pub mod mutation;
pub mod mutation_laws;
pub mod order;
pub mod order_laws;
pub mod pattern_laws;
pub mod report;
pub mod report_laws;
pub mod sections;
pub mod switch;
pub mod symbol;
pub mod syntax;
pub mod text;
pub mod text_laws;
pub mod tokens;

pub use inventory::{Inventory, TestItem, TestKind};
pub use symbol::{Symbol, SymbolId};
