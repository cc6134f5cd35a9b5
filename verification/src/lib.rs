//! Binary protocol parsing over packet captures: capture-file reading,
//! protocol templates, a template interpreter, a template compiler with a
//! bytecode machine, and payload analysis that infers templates.

pub mod bytecode;
pub mod bytes;
pub mod capture_gen;
pub mod compiler;
pub mod hexcodec;
pub mod json;
pub mod numeric;
pub mod pcap;
pub mod scalar;
pub mod template;
pub mod vm;
pub mod parser;
pub mod analyzer;
pub mod decimal;
pub mod infer;
pub mod output;
pub mod editor;
pub mod engines;
pub mod conditions;
