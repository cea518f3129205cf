//! Cull: a conservative dead-code analyzer for Python projects.
pub mod ids;
pub mod text;
pub mod source;
pub mod diagnostic;
pub mod ir;
pub mod semantic;
pub mod builder;
pub mod canon;
pub mod decode;
pub mod order;
pub mod output;
pub mod frontend;
pub mod ruff_frontend;
pub mod syntax;
pub mod binding_inventory;
pub mod definition_effects;
pub mod config;
pub mod paths;
pub mod discovery;
pub mod findings;
pub mod fingerprint;
pub mod candidates;
pub mod clusters;
pub mod report;
pub mod module_namespace;
pub mod present;
pub mod flow;
pub mod flow_facts;
pub mod roots;
pub mod cycles;
pub mod values;
pub mod reaching;
pub mod seeds;
pub mod slots;
pub mod reach;
