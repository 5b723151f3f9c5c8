//! Static analysis of array programs: value ranges, machine types for
//! compilation, and symbolic axis lengths as integer polynomials.

pub mod axis;
pub mod poly;
pub mod range;
pub mod relation;
pub mod info;
pub mod comp_type;
pub mod array_ref;
pub mod rules;
pub mod array_rules;
pub mod concrete;
pub mod graph;
pub mod shape_infer;
pub mod prepare;
pub mod codegen;
pub mod matching;
pub mod stack_effect;
pub mod axis_text;
