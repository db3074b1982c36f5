pub mod bristol;
pub mod bristol_laws;
pub mod builtins;
pub mod circuit;
pub mod circuit_builder;
pub mod circuit_builder_laws;
pub mod circuit_signal;
pub mod circuit_signal_laws;
pub mod compile;
pub mod compile_laws;
pub mod diagnostics_by_path;
pub mod id_generator;
pub mod name_map;
pub mod ops;
pub mod recycle;
pub mod recycle_chain;
pub mod recycle_laws;
pub mod sorted;
pub mod summon_io;
pub mod text;
pub mod typescript;
pub mod vs_value;
