//! Symbol declarations (functions, classes, interfaces, type aliases,
//! enums, arrow-function variables, React components) collected while a
//! parsed TypeScript / JavaScript file is walked.
use vstd::prelude::*;
use vstd::string::StrSliceExecFns;

use crate::source_text::{contains_byte, first_start, has_byte, lemma_first_start_past_end, line_col, line_to_offset, offset_to_line_col};

verus! {

/// What kind of declaration a symbol is.
#[derive(Debug, Clone, Copy, PartialEq, Eq, Structural)]
pub enum SymbolKind {
    Function,
    Class,
    Interface,
    TypeAlias,
    Variable,
    Enum,
    ReactComponent,
}

/// The stored name of a symbol kind.
pub open spec fn kind_label(k: SymbolKind) -> Seq<char> {
    match k {
        SymbolKind::Function => "function"@,
        SymbolKind::Class => "class"@,
        SymbolKind::Interface => "interface"@,
        SymbolKind::TypeAlias => "type"@,
        SymbolKind::Variable => "variable"@,
        SymbolKind::Enum => "enum"@,
        SymbolKind::ReactComponent => "react_component"@,
    }
}

/// Different symbol kinds are stored under different names, each one
/// non-empty.
pub proof fn lemma_kind_labels_distinct(a: SymbolKind, b: SymbolKind)
    ensures
        a != b ==> kind_label(a) != kind_label(b),
        kind_label(a).len() > 0,
{
    reveal_strlit("function");
    reveal_strlit("class");
    reveal_strlit("interface");
    reveal_strlit("type");
    reveal_strlit("variable");
    reveal_strlit("enum");
    reveal_strlit("react_component");
    assert("function"@.len() == 8 && "class"@.len() == 5 && "interface"@.len() == 9 && "type"@.len() == 4);
    assert("variable"@.len() == 8 && "enum"@.len() == 4 && "react_component"@.len() == 15);
    assert("function"@[0] == 'f' && "variable"@[0] == 'v' && "type"@[0] == 't' && "enum"@[0] == 'e');
}

impl SymbolKind {
    /// The name under which the kind is stored.
    pub fn as_str(&self) -> (s: &'static str)
        ensures
            s@ == kind_label(*self),
    {
        match self {
            SymbolKind::Function => "function",
            SymbolKind::Class => "class",
            SymbolKind::Interface => "interface",
            SymbolKind::TypeAlias => "type",
            SymbolKind::Variable => "variable",
            SymbolKind::Enum => "enum",
            SymbolKind::ReactComponent => "react_component",
        }
    }
}

/// Who can see a symbol.
#[derive(Debug, Clone, Copy, PartialEq, Eq, Structural)]
pub enum Visibility {
    Public,
    Private,
    Exported,
}

/// The stored name of a visibility.
pub open spec fn visibility_label(v: Visibility) -> Seq<char> {
    match v {
        Visibility::Public => "public"@,
        Visibility::Private => "private"@,
        Visibility::Exported => "exported"@,
    }
}

impl Visibility {
    /// The name under which the visibility is stored.
    pub fn as_str(&self) -> (s: &'static str)
        ensures
            s@ == visibility_label(*self),
    {
        match self {
            Visibility::Public => "public",
            Visibility::Private => "private",
            Visibility::Exported => "exported",
        }
    }
}

/// A single symbol extracted from source code.
#[derive(Debug)]
pub struct SymbolRecord {
    pub name: String,
    pub kind: SymbolKind,
    pub source_line: i64,
    pub source_column: i64,
    pub source_end_line: i64,
    pub source_end_column: i64,
    pub signature: Option<String>,
    pub visibility: Visibility,
    pub is_exported: bool,
    pub parent_name: Option<String>,
}

#[allow(inconsistent_fields)]
/// A syntax node as the symbol walk sees it: its kind, the declared name
/// where it has one, and its byte span in the source.
pub enum SymbolNode {
    Function { name: Option<String>, start: u32, end: u32 },
    Class { name: Option<String>, start: u32, end: u32 },
    Interface { name: String, start: u32, end: u32 },
    TypeAlias { name: String, start: u32, end: u32 },
    Enum { name: String, start: u32, end: u32 },
    /// A variable declarator; `name` is set when it binds a plain
    /// identifier, `init_is_arrow` when its initialiser is an arrow function.
    Variable { name: Option<String>, has_init: bool, init_is_arrow: bool, start: u32, end: u32 },
    /// `export { .. }` or `export <declaration>`; `has_source` for
    /// `export .. from ".."`.
    ExportNamed { has_source: bool, start: u32, end: u32 },
    Other,
}

/// Each declaration node adds one public, unexported record of its own
/// kind under its declared name: an enum declaration an `Enum`, an
/// interface an `Interface`, a type alias a `TypeAlias`, a named class a
/// `Class`, and a named function or an arrow function bound to a name a
/// `Function` or `ReactComponent`. No other kind of node adds a record of
/// those kinds.
pub proof fn lemma_declaration_kinds(
    old_syms: Seq<SymbolRecord>,
    old_class: Option<String>,
    syms: Seq<SymbolRecord>,
    class: Option<String>,
    src: Seq<u8>,
    node: SymbolNode,
)
    requires
        entered(old_syms, old_class, syms, class, src, node),
    ensures
        node matches SymbolNode::Enum { name, .. } ==> syms.len() == old_syms.len() + 1
            && syms.last().kind == SymbolKind::Enum && syms.last().name@ == name@,
        node matches SymbolNode::Interface { name, .. } ==> syms.len() == old_syms.len() + 1
            && syms.last().kind == SymbolKind::Interface && syms.last().name@ == name@,
        node matches SymbolNode::TypeAlias { name, .. } ==> syms.len() == old_syms.len() + 1
            && syms.last().kind == SymbolKind::TypeAlias && syms.last().name@ == name@,
        node matches SymbolNode::Class { name: Some(n), .. } ==> syms.len() == old_syms.len() + 1
            && syms.last().kind == SymbolKind::Class && syms.last().name@ == n@,
        node matches SymbolNode::Function { name: Some(n), .. } ==> syms.len() == old_syms.len() + 1
            && (syms.last().kind == SymbolKind::Function || syms.last().kind == SymbolKind::ReactComponent)
            && syms.last().name@ == n@,
        syms.len() == old_syms.len() + 1 ==> {
            &&& (syms.last().kind == SymbolKind::Enum <==> node is Enum)
            &&& (syms.last().kind == SymbolKind::Interface <==> node is Interface)
            &&& (syms.last().kind == SymbolKind::TypeAlias <==> node is TypeAlias)
            &&& (syms.last().kind == SymbolKind::Class <==> node is Class)
            &&& (syms.last().kind == SymbolKind::Function || syms.last().kind == SymbolKind::ReactComponent
                <==> (node is Function || node is Variable))
            &&& syms.last().kind != SymbolKind::Variable
            &&& syms.last().visibility == Visibility::Public
            &&& !syms.last().is_exported
            &&& syms.drop_last() == old_syms
        },
        syms.len() == old_syms.len() || syms.len() == old_syms.len() + 1,
{
}

/// The name starts with an ASCII capital letter.
pub open spec fn upper_first(name: Seq<char>) -> bool {
    name.len() > 0 && 'A' <= name[0] <= 'Z'
}

/// Whether `name` starts with an ASCII capital letter.
pub fn is_uppercase_first(name: &str) -> (r: bool)
    ensures
        r == upper_first(name@),
{
    if name.unicode_len() == 0 {
        return false;
    }
    let c = name.get_char(0);
    'A' <= c && c <= 'Z'
}

/// The record's position is the span `[start, end)` of the source.
pub open spec fn at_span(r: SymbolRecord, src: Seq<u8>, start: u32, end: u32) -> bool {
    let e = if end < src.len() {
        end as int
    } else {
        src.len() as int
    };
    &&& r.source_line == line_col(src, start as int).0
    &&& r.source_column == line_col(src, start as int).1
    &&& r.source_end_line == line_col(src, e).0
    &&& r.source_end_column == line_col(src, e).1
}

/// A freshly found declaration.
pub open spec fn new_record(
    r: SymbolRecord,
    name: Seq<char>,
    kind: SymbolKind,
    parent: Option<String>,
    src: Seq<u8>,
    start: u32,
    end: u32,
) -> bool {
    &&& r.name@ == name
    &&& r.kind == kind
    &&& at_span(r, src, start, end)
    &&& r.signature is None
    &&& r.visibility == Visibility::Public
    &&& !r.is_exported
    &&& r.parent_name == parent
}

/// The record marked as exported.
pub open spec fn exported(r: SymbolRecord) -> SymbolRecord {
    SymbolRecord {
        name: r.name,
        kind: r.kind,
        source_line: r.source_line,
        source_column: r.source_column,
        source_end_line: r.source_end_line,
        source_end_column: r.source_end_column,
        signature: r.signature,
        visibility: Visibility::Exported,
        is_exported: true,
        parent_name: r.parent_name,
    }
}

/// An `export` spanning `[start, end)` covers the last symbol: the line
/// the symbol starts on begins inside the span.
pub open spec fn export_covers_last(syms: Seq<SymbolRecord>, src: Seq<u8>, start: u32, end: u32) -> bool {
    &&& syms.len() > 0
    &&& syms.last().source_line >= 1
    &&& (first_start(src, syms.last().source_line as int, src.len() as int) matches Some(off) && start <= off
        < end)
}

/// What entering `node` does to the collected symbols and the enclosing
/// class.
pub open spec fn entered(
    old_syms: Seq<SymbolRecord>,
    old_class: Option<String>,
    syms: Seq<SymbolRecord>,
    class: Option<String>,
    src: Seq<u8>,
    node: SymbolNode,
) -> bool {
    match node {
        SymbolNode::Function { name, start, end } => class == old_class && match name {
            Some(n) => syms.len() == old_syms.len() + 1 && syms.drop_last() == old_syms && new_record(
                syms.last(),
                n@,
                if upper_first(n@) && has_byte(src, start as int, end as int, 60) {
                    SymbolKind::ReactComponent
                } else {
                    SymbolKind::Function
                },
                old_class,
                src,
                start,
                end,
            ),
            None => syms == old_syms,
        },
        SymbolNode::Class { name, start, end } => match name {
            Some(n) => syms.len() == old_syms.len() + 1 && syms.drop_last() == old_syms && new_record(
                syms.last(),
                n@,
                SymbolKind::Class,
                None,
                src,
                start,
                end,
            ) && (class matches Some(c) && c@ == n@),
            None => syms == old_syms && class == old_class,
        },
        SymbolNode::Interface { name, start, end } => class == old_class && syms.len() == old_syms.len() + 1
            && syms.drop_last() == old_syms && new_record(syms.last(), name@, SymbolKind::Interface, None, src, start, end),
        SymbolNode::TypeAlias { name, start, end } => class == old_class && syms.len() == old_syms.len() + 1
            && syms.drop_last() == old_syms && new_record(syms.last(), name@, SymbolKind::TypeAlias, None, src, start, end),
        SymbolNode::Enum { name, start, end } => class == old_class && syms.len() == old_syms.len() + 1
            && syms.drop_last() == old_syms && new_record(syms.last(), name@, SymbolKind::Enum, None, src, start, end),
        SymbolNode::Variable { name, has_init, init_is_arrow, start, end } => class == old_class && match name {
            Some(n) => if has_init && init_is_arrow {
                syms.len() == old_syms.len() + 1 && syms.drop_last() == old_syms && new_record(
                    syms.last(),
                    n@,
                    if upper_first(n@) {
                        SymbolKind::ReactComponent
                    } else {
                        SymbolKind::Function
                    },
                    None,
                    src,
                    start,
                    end,
                )
            } else {
                syms == old_syms
            },
            None => syms == old_syms,
        },
        SymbolNode::ExportNamed { has_source, start, end } => class == old_class && if !has_source
            && export_covers_last(old_syms, src, start, end) {
            syms == old_syms.update(old_syms.len() - 1, exported(old_syms.last()))
        } else {
            syms == old_syms
        },
        SymbolNode::Other => syms == old_syms && class == old_class,
    }
}

/// A function declaration whose name starts with a capital letter is
/// checked for JSX inside its span, which must then lie within the source.
pub open spec fn node_in_bounds(src: Seq<u8>, node: SymbolNode) -> bool {
    match node {
        SymbolNode::Function { name, start, end } => (name matches Some(n) && upper_first(n@)) ==> start
            <= end <= src.len(),
        _ => true,
    }
}

/// Walk state: the symbols found so far and the class being walked.
pub struct SymbolCollector {
    pub symbols: Vec<SymbolRecord>,
    pub class_name: Option<String>,
}

fn record_at(
    src: &[u8],
    name: String,
    kind: SymbolKind,
    parent: Option<String>,
    start: u32,
    end: u32,
) -> (r: SymbolRecord)
    requires
        src.len() < i64::MAX,
    ensures
        new_record(r, name@, kind, parent, src@, start, end),
{
    let (sl, sc) = offset_to_line_col(src, start as usize);
    let e = if (end as usize) < src.len() {
        end as usize
    } else {
        src.len()
    };
    let (el, ec) = offset_to_line_col(src, e);
    SymbolRecord {
        name,
        kind,
        source_line: sl,
        source_column: sc,
        source_end_line: el,
        source_end_column: ec,
        signature: None,
        visibility: Visibility::Public,
        is_exported: false,
        parent_name: parent,
    }
}

fn clone_name(s: &Option<String>) -> (r: Option<String>)
    ensures
        r == *s,
{
    match s {
        Some(x) => Some(x.clone()),
        None => None,
    }
}

impl SymbolCollector {
    /// An empty walk state.
    pub fn new() -> (c: Self)
        ensures
            c.symbols@.len() == 0,
            c.class_name is None,
    {
        SymbolCollector { symbols: Vec::new(), class_name: None }
    }

    /// Takes in one node on the way down the syntax tree.
    pub fn enter_node(&mut self, src: &[u8], node: SymbolNode)
        requires
            src.len() < i64::MAX,
            node_in_bounds(src@, node),
        ensures
            entered(old(self).symbols@, old(self).class_name, final(self).symbols@, final(self).class_name, src@, node),
    {
        match node {
            SymbolNode::Function { name, start, end } => {
                if let Some(n) = name {
                    let react = is_uppercase_first(n.as_str()) && contains_byte(
                        src,
                        start as usize,
                        end as usize,
                        60,
                    );
                    let kind = if react {
                        SymbolKind::ReactComponent
                    } else {
                        SymbolKind::Function
                    };
                    let parent = clone_name(&self.class_name);
                    let r = record_at(src, n, kind, parent, start, end);
                    self.symbols.push(r);
                    proof {
                        assert(self.symbols@.drop_last() =~= old(self).symbols@);
                    }
                }
            },
            SymbolNode::Class { name, start, end } => {
                if let Some(n) = name {
                    self.class_name = Some(n.clone());
                    let r = record_at(src, n, SymbolKind::Class, None, start, end);
                    self.symbols.push(r);
                    proof {
                        assert(self.symbols@.drop_last() =~= old(self).symbols@);
                    }
                }
            },
            SymbolNode::Interface { name, start, end } => {
                let r = record_at(src, name, SymbolKind::Interface, None, start, end);
                self.symbols.push(r);
                proof {
                    assert(self.symbols@.drop_last() =~= old(self).symbols@);
                }
            },
            SymbolNode::TypeAlias { name, start, end } => {
                let r = record_at(src, name, SymbolKind::TypeAlias, None, start, end);
                self.symbols.push(r);
                proof {
                    assert(self.symbols@.drop_last() =~= old(self).symbols@);
                }
            },
            SymbolNode::Enum { name, start, end } => {
                let r = record_at(src, name, SymbolKind::Enum, None, start, end);
                self.symbols.push(r);
                proof {
                    assert(self.symbols@.drop_last() =~= old(self).symbols@);
                }
            },
            SymbolNode::Variable { name, has_init, init_is_arrow, start, end } => {
                if let Some(n) = name {
                    if has_init && init_is_arrow {
                        let kind = if is_uppercase_first(n.as_str()) {
                            SymbolKind::ReactComponent
                        } else {
                            SymbolKind::Function
                        };
                        let r = record_at(src, n, kind, None, start, end);
                        self.symbols.push(r);
                        proof {
                            assert(self.symbols@.drop_last() =~= old(self).symbols@);
                        }
                    }
                }
            },
            SymbolNode::ExportNamed { has_source, start, end } => {
                if has_source {
                    return;
                }
                let count = self.symbols.len();
                if count == 0 {
                    return;
                }
                let line = self.symbols[count - 1].source_line;
                let off = if line >= 1 && (line as u64) <= (src.len() as u64) {
                    line_to_offset(src, line as usize)
                } else {
                    proof {
                        if line >= 1 {
                            lemma_first_start_past_end(src@, line as int);
                        }
                    }
                    None
                };
                if let Some(o) = off {
                    if (start as usize) <= o && o < (end as usize) {
                        let ghost pre = self.symbols@;
                        let mut r = self.symbols.pop().unwrap();
                        r.is_exported = true;
                        r.visibility = Visibility::Exported;
                        self.symbols.push(r);
                        proof {
                            assert(self.symbols@ =~= pre.update(pre.len() - 1, exported(pre.last())));
                        }
                    }
                }
            },
            SymbolNode::Other => {},
        }
    }

    /// Leaves a class on the way back up the syntax tree.
    pub fn leave_class(&mut self)
        ensures
            final(self).symbols@ == old(self).symbols@,
            final(self).class_name is None,
    {
        self.class_name = None;
    }
}

} // verus!
