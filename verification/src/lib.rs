//! Verified core of the Eye compiler front end: literal decoding, source
//! positions, the string and type interners, const folding, the
//! type-declaration graph, lexical scopes and diagnostics.

pub mod legend;
pub mod literal;
pub mod text;
pub mod source;
pub mod errors;
pub mod names;
pub mod name_set;
pub mod consts;
pub mod interner;
pub mod ids;
pub mod typed_arena;
pub mod scopes;
pub mod types;
pub mod graph;
pub mod typegraph;
pub mod body;
pub mod items;
pub mod lowering;
pub mod tree;
pub mod body_lowering;
pub mod const_eval;
pub mod checks;
pub mod semantic;
pub mod highlight;
pub mod coerce;
pub mod hover;
pub mod laws;
pub mod op_laws;
pub mod display_laws;
