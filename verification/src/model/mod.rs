//! The in-memory entity graph.
//!
//! A parsed file becomes a set of entity instances keyed by `#id`, plus
//! two indices: forward references (what each instance points at) and
//! back references (what points at each instance).
//!
//! The back index is not an optimisation; it is load-bearing. In STEP, a
//! product's shape, its colours, its PMI and its assembly placement all
//! point *at* the product rather than away from it.
pub mod assembly;
pub mod extract;
pub mod graph;

pub use assembly::{Definition, Placement, Product, ProductStructure, Usage, UsageKind};
pub use extract::{extract, extract_excluding, orphans, rules, Extraction, Rule, RuleKind};
pub use graph::Graph;
