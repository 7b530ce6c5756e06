//! Validation of data against schemas in the concise data definition language (CDDL).
//!
//! A schema is a tree of [`ivt::Node`]s, in which rules are referred to by name and looked up in a
//! [`context::Context`]. Data is a tree of [`value::Value`]s. [`validate`] holds one against the
//! other, and [`semantics`] says what that means. What holds of validation as a whole is stated in
//! the modules of laws.
pub mod array;
pub mod context;
pub mod entries;
pub mod float;
pub mod ivt;
pub mod map;
pub mod order;
pub mod runs;
pub mod scalar;
pub mod semantics;
pub mod text;
pub mod util;
pub mod validate;
pub mod value;
pub mod working;

pub mod arrangement;
pub mod array_laws;
pub mod cut_laws;
pub mod depth;
pub mod entry_laws;
pub mod item_laws;
pub mod key_laws;
pub mod laws;
pub mod map_laws;
pub mod occur_laws;
pub mod option_laws;
pub mod order_laws;
pub mod outcome_laws;
pub mod plain_laws;
pub mod rewind_laws;
pub mod settling;
pub mod splice_laws;
pub mod text_laws;
pub mod verdict_laws;
