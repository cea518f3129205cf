//! Python statements as the binding inventory reads them: the statement kinds, the names
//! they bind and their ranges, and the nested bodies, as plain values.
use vstd::prelude::*;

use crate::source::TextRange;

verus! {

/// A name and its range.
#[derive(Clone, Debug, PartialEq, Eq)]
pub struct NameSyntax {
    pub id: String,
    pub range: TextRange,
}

/// An expression in a position that may bind names (an assignment, `for`, `with` or `del`
/// target). `store` is whether the expression's context is `Store` or `Del`.
#[derive(Debug)]
pub enum TargetSyntax {
    Name { id: String, range: TextRange, store: bool },
    Tuple { elts: Vec<TargetSyntax>, store: bool },
    List { elts: Vec<TargetSyntax>, store: bool },
    Starred { value: Box<TargetSyntax> },
    Other,
}

/// A parameter of a function, in source order.
#[derive(Clone, Debug, PartialEq, Eq)]
pub struct ParameterSyntax {
    pub name: String,
    pub range: TextRange,
    pub name_range: TextRange,
}

/// One name of an `import` or `from ... import` statement.
#[derive(Clone, Debug, PartialEq, Eq)]
pub struct AliasSyntax {
    pub name: String,
    pub name_range: TextRange,
    pub asname: Option<NameSyntax>,
    pub range: TextRange,
}

/// An `except` clause.
#[derive(Debug)]
pub struct HandlerSyntax {
    pub name: Option<NameSyntax>,
    pub body: Vec<StmtSyntax>,
}

/// A statement.
#[derive(Debug)]
pub enum StmtSyntax {
    FunctionDef {
        name: String,
        name_range: TextRange,
        range: TextRange,
        is_async: bool,
        parameters: Vec<ParameterSyntax>,
        body: Vec<StmtSyntax>,
    },
    ClassDef { name: String, name_range: TextRange, range: TextRange, body: Vec<StmtSyntax> },
    Assign { targets: Vec<TargetSyntax> },
    AnnAssign { target: TargetSyntax, has_value: bool },
    AugAssign { target: TargetSyntax },
    Import { names: Vec<AliasSyntax> },
    ImportFrom { module: Option<String>, level: u32, names: Vec<AliasSyntax> },
    TypeAlias { name: TargetSyntax },
    Delete { targets: Vec<TargetSyntax> },
    For { target: TargetSyntax, body: Vec<StmtSyntax>, orelse: Vec<StmtSyntax> },
    While { body: Vec<StmtSyntax>, orelse: Vec<StmtSyntax> },
    /// `if`, with the bodies of its `elif` and `else` clauses.
    If { body: Vec<StmtSyntax>, clauses: Vec<Vec<StmtSyntax>> },
    /// `with`, with the optional target of each item.
    With { targets: Vec<Option<TargetSyntax>>, body: Vec<StmtSyntax> },
    Try {
        body: Vec<StmtSyntax>,
        handlers: Vec<HandlerSyntax>,
        orelse: Vec<StmtSyntax>,
        finalbody: Vec<StmtSyntax>,
    },
    /// `match`, with the body of each case.
    Match { cases: Vec<Vec<StmtSyntax>> },
    /// A statement that binds nothing and has no body: `return`, `raise`, `assert`, `global`,
    /// `nonlocal`, an expression, `pass`, `break`, `continue`.
    Other,
}

} // verus!
