//! The interface between the analyzer and a Python parser.
use vstd::prelude::*;

use crate::decode::DecodedSource;
use crate::diagnostic::Diagnostic;
use crate::ids::{FileId, ModuleId};
use crate::ir::ModuleIr;
use crate::source::PythonVersion;

verus! {

/// A parser that lowers one decoded module into the parser-neutral IR.
pub trait PythonFrontend {
    /// The parser reads at most 4 GiB of UTF-8 text.
    fn parse_module(&self, input: ParseInput<'_>) -> Result<ParsedModule, Vec<Diagnostic>>
        requires
            vstd::utf8::encode_utf8(input.source.text@).len() <= u32::MAX,
    ;
}

/// What a frontend is given for one module.
#[derive(Clone, Copy, Debug)]
pub struct ParseInput<'a> {
    pub file_id: FileId,
    pub module_id: ModuleId,
    pub module_name: &'a str,
    pub display_path: &'a str,
    pub source: &'a DecodedSource,
    pub target_python: PythonVersion,
}

/// A module that parsed, with any warnings the frontend reported.
#[derive(Clone, Debug)]
pub struct ParsedModule {
    pub module: ModuleIr,
    pub diagnostics: Vec<Diagnostic>,
}

} // verus!
