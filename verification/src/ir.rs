//! Parser-neutral intermediate representation of top-level definitions.
use vstd::prelude::*;

use crate::ids::{DefId, FileId, ModuleId};
use crate::source::TextRange;

verus! {

#[derive(Clone, Copy, Debug, PartialEq, Eq, Structural, Hash, PartialOrd, Ord)]
pub enum DefinitionKind {
    Function,
    Class,
}

#[derive(Clone, Debug, PartialEq, Eq)]
pub struct ModuleIr {
    pub id: ModuleId,
    pub file: FileId,
    pub name: String,
    pub path: String,
    pub future_annotations: bool,
    pub definitions: Vec<DefinitionIr>,
}

#[derive(Clone, Debug, PartialEq, Eq)]
pub struct DefinitionIr {
    pub id: DefId,
    pub key: DefinitionKey,
    pub kind: DefinitionKind,
    pub name: String,
    pub range: TextRange,
    pub name_range: TextRange,
    pub is_async: bool,
    pub decorator_count: usize,
    pub type_parameter_count: usize,
}

#[derive(Clone, Debug, PartialEq, Eq)]
pub struct DefinitionKey {
    pub module: String,
    pub kind: DefinitionKind,
    pub lexical_parent: Option<String>,
    pub name: String,
    pub range: TextRange,
}

} // verus!
