//! A decoder for self-describing records, driven by a plan that is built once
//! per record type from the type's field declarations.
//!
//! The plan says, for each field, how its wire value is decoded: by a decoder
//! named explicitly on the field, as text, or by the field type's own decoder
//! together with a state derived from the record decoder's own state.

mod types;
mod plan;
mod decoder;
mod size;
mod laws;

pub use types::{BuildError, DecodeError, Decoded, DecodedView, State, StateExpr, StateKind, TypeRef, Value, WireField};
pub use plan::{derive_decodeable, FieldDef, FieldPlan, Plan, RecordDef, Strategy};
pub use decoder::{decode_record, decode_value, Action, RecordDecoder};
pub use size::{parse_size, DeploymentSize};
pub use laws::{
    lemma_complete, lemma_duplicate, lemma_factory_wins, lemma_missing, lemma_state_changes_outcome,
    lemma_state_reaches_field, lemma_unknown_ignored,
};
