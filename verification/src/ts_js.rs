//! Import relationships of TypeScript / JavaScript files: which syntax
//! nodes are imports (static, re-export, dynamic, `require`), and the
//! records made of them.
use std::path::{Path, PathBuf};
use vstd::prelude::*;
use vstd::string::StringExecFns;

use crate::source_text::{line_col, offset_to_line_col};

verus! {

/// A filesystem path, carried through as it is.
#[verifier::external_type_specification]
#[verifier::external_body]
pub struct ExPathBuf(PathBuf);

/// A filesystem path slice, carried through as it is.
#[verifier::external_type_specification]
#[verifier::external_body]
pub struct ExPath(Path);

/// How a file refers to another.
#[derive(Debug, Clone, Copy, PartialEq, Eq, Structural)]
pub enum ImportType {
    StaticImport,
    DynamicImport,
    Require,
    ReExport,
    ReExportAll,
}

/// The stored name of an import type.
pub open spec fn import_label(t: ImportType) -> Seq<char> {
    match t {
        ImportType::StaticImport => "static_import"@,
        ImportType::DynamicImport => "dynamic_import"@,
        ImportType::Require => "require"@,
        ImportType::ReExport => "re_export"@,
        ImportType::ReExportAll => "re_export_all"@,
    }
}

/// Different import types are stored under different names, each one
/// non-empty.
pub proof fn lemma_import_labels_distinct(a: ImportType, b: ImportType)
    ensures
        a != b ==> import_label(a) != import_label(b),
        import_label(a).len() > 0,
{
    reveal_strlit("static_import");
    reveal_strlit("dynamic_import");
    reveal_strlit("require");
    reveal_strlit("re_export");
    reveal_strlit("re_export_all");
    assert("static_import"@[0] == 's' && "dynamic_import"@[0] == 'd' && "require"@[0] == 'r');
    assert("re_export"@.len() == 9 && "re_export_all"@.len() == 13 && "require"@.len() == 7);
}

impl ImportType {
    /// The name under which the import type is stored.
    pub fn as_str(&self) -> (s: &'static str)
        ensures
            s@ == import_label(*self),
    {
        match self {
            ImportType::StaticImport => "static_import",
            ImportType::DynamicImport => "dynamic_import",
            ImportType::Require => "require",
            ImportType::ReExport => "re_export",
            ImportType::ReExportAll => "re_export_all",
        }
    }
}

/// A single import relationship extracted from source code.
#[derive(Debug)]
pub struct ImportRecord {
    pub source_file_id: i64,
    pub target_specifier: String,
    pub resolved_target: Option<PathBuf>,
    pub import_type: ImportType,
    pub is_external: bool,
    pub start_line: Option<i64>,
    pub start_column: Option<i64>,
}

/// Diagnostic emitted by the parser.
#[derive(Debug)]
pub struct ParseDiagnostic {
    pub severity: String,
    pub message: String,
    pub line: Option<i64>,
    pub column: Option<i64>,
}

/// Result of parsing a single file.
#[derive(Debug)]
pub struct ParseResult {
    pub imports: Vec<ImportRecord>,
    pub diagnostics: Vec<ParseDiagnostic>,
}

/// A syntax node as the import walk sees it; string literals come with
/// the byte offset where they start.
pub enum ImportNode {
    /// `import .. from "spec"`.
    ImportDeclaration { specifier: String, offset: u32 },
    /// `export { .. }`, with `source` for `export { .. } from "spec"`.
    ExportNamed { source: Option<(String, u32)> },
    /// `export * from "spec"`.
    ExportAll { specifier: String, offset: u32 },
    /// `import(..)`, with `literal` when the argument is a string literal.
    ImportExpression { literal: Option<(String, u32)> },
    /// A call; `callee` is set when the callee is a plain name,
    /// `first_arg` when the first argument is a string literal.
    Call { callee: Option<String>, first_arg: Option<(String, u32)> },
    Other,
}

/// The import a node makes: specifier, type and offset of the specifier.
pub open spec fn import_of(node: ImportNode) -> Option<(Seq<char>, ImportType, u32)> {
    match node {
        ImportNode::ImportDeclaration { specifier, offset } => Some((specifier@, ImportType::StaticImport, offset)),
        ImportNode::ExportNamed { source } => match source {
            Some(s) => Some((s.0@, ImportType::ReExport, s.1)),
            None => None,
        },
        ImportNode::ExportAll { specifier, offset } => Some((specifier@, ImportType::ReExportAll, offset)),
        ImportNode::ImportExpression { literal } => match literal {
            Some(s) => Some((s.0@, ImportType::DynamicImport, s.1)),
            None => None,
        },
        ImportNode::Call { callee, first_arg } => match (callee, first_arg) {
            (Some(c), Some(a)) => if c@ == "require"@ {
                Some((a.0@, ImportType::Require, a.1))
            } else {
                None
            },
            _ => None,
        },
        ImportNode::Other => None,
    }
}

/// Every kind of import node yields its own import type, carrying the
/// node's specifier and offset: `import .. from` a static import,
/// `import(..)` with a string literal a dynamic import, `require(..)` a
/// require, `export { .. } from` a re-export and `export * from` a re-export
/// of everything. No two kinds of node share a type.
pub proof fn lemma_import_types(node: ImportNode)
    ensures
        node matches ImportNode::ImportDeclaration { specifier, offset } ==> import_of(node) == Some(
            (specifier@, ImportType::StaticImport, offset),
        ),
        node matches ImportNode::ImportExpression { literal: Some(l) } ==> import_of(node) == Some(
            (l.0@, ImportType::DynamicImport, l.1),
        ),
        node matches ImportNode::ImportExpression { literal: None } ==> import_of(node) is None,
        node matches ImportNode::ExportAll { specifier, offset } ==> import_of(node) == Some(
            (specifier@, ImportType::ReExportAll, offset),
        ),
        node matches ImportNode::ExportNamed { source: Some(s) } ==> import_of(node) == Some(
            (s.0@, ImportType::ReExport, s.1),
        ),
        node matches ImportNode::Call { callee: Some(c), first_arg: Some(a) } ==> import_of(node) == if c@
            == "require"@ {
            Some((a.0@, ImportType::Require, a.1))
        } else {
            None
        },
        import_of(node) matches Some(i) ==> {
            &&& (i.1 == ImportType::StaticImport <==> node is ImportDeclaration)
            &&& (i.1 == ImportType::DynamicImport <==> node is ImportExpression)
            &&& (i.1 == ImportType::Require <==> node is Call)
            &&& (i.1 == ImportType::ReExport <==> node is ExportNamed)
            &&& (i.1 == ImportType::ReExportAll <==> node is ExportAll)
        },
        node is Other ==> import_of(node) is None,
{
}

/// The import a node makes, if any.
pub fn classify_import(node: ImportNode) -> (r: Option<(String, ImportType, u32)>)
    ensures
        match import_of(node) {
            Some(i) => r matches Some(x) && x.0@ == i.0 && x.1 == i.1 && x.2 == i.2,
            None => r is None,
        },
{
    match node {
        ImportNode::ImportDeclaration { specifier, offset } => Some((specifier, ImportType::StaticImport, offset)),
        ImportNode::ExportNamed { source } => match source {
            Some(s) => Some((s.0, ImportType::ReExport, s.1)),
            None => None,
        },
        ImportNode::ExportAll { specifier, offset } => Some((specifier, ImportType::ReExportAll, offset)),
        ImportNode::ImportExpression { literal } => match literal {
            Some(s) => Some((s.0, ImportType::DynamicImport, s.1)),
            None => None,
        },
        ImportNode::Call { callee, first_arg } => match (callee, first_arg) {
            (Some(c), Some(a)) => {
                if c == String::from_str("require") {
                    Some((a.0, ImportType::Require, a.1))
                } else {
                    None
                }
            },
            _ => None,
        },
        ImportNode::Other => None,
    }
}

/// How an import specifier resolved: to a file of the workspace, to an
/// outside package, or not at all.
pub enum Resolution {
    File(PathBuf),
    External,
    Unresolved,
}

/// The record of an import of `specifier` at byte `offset`, resolved as
/// `resolution`; `None` for an empty specifier.
pub fn import_record(
    file_id: i64,
    src: &[u8],
    specifier: String,
    import_type: ImportType,
    offset: u32,
    resolution: Resolution,
) -> (r: Option<ImportRecord>)
    requires
        src.len() < i64::MAX,
    ensures
        specifier@.len() == 0 <==> r is None,
        r matches Some(rec) ==> {
            &&& rec.source_file_id == file_id
            &&& rec.target_specifier@ == specifier@
            &&& rec.import_type == import_type
            &&& (rec.start_line matches Some(l) && l == line_col(src@, offset as int).0)
            &&& (rec.start_column matches Some(c) && c == line_col(src@, offset as int).1)
            &&& rec.is_external == (resolution is External)
            &&& (rec.resolved_target is Some <==> resolution is File)
            &&& (resolution matches Resolution::File(p) ==> rec.resolved_target == Some(p))
        },
{
    if specifier.as_str().is_empty() {
        return None;
    }
    let (line, col) = offset_to_line_col(src, offset as usize);
    let (resolved_target, is_external) = match resolution {
        Resolution::File(p) => (Some(p), false),
        Resolution::External => (None, true),
        Resolution::Unresolved => (None, false),
    };
    Some(
        ImportRecord {
            source_file_id: file_id,
            target_specifier: specifier,
            resolved_target,
            import_type,
            is_external,
            start_line: Some(line),
            start_column: Some(col),
        },
    )
}

} // verus!
