//! A fixed-size pool of items described by named traits, where each trait
//! offers several mutually exclusive options.
//!
//! An operator first registers the pool (`init`), then grows a catalog of
//! traits and options (`add_trait`, `add_option`). A one-shot `finalize`
//! step randomly partitions the pool size across each trait's options so
//! that the shares sum exactly to the pool size. Afterwards, `draw` returns
//! one option per trait for an opaque request identifier, idempotently and
//! weighted by each option's share, until the pool is exhausted.

pub mod contract;
pub mod rng;
pub mod types;

pub use contract::{AssignmentEntry, TraitChoice, TraitContract};
pub use rng::{get_random_number, RandomSource};
pub use types::{AssetTrait, Error, TraitCollection, TraitOptionItem, TraitOptionValue};
