//! Symbol references (calls, `new` expressions) collected while a parsed
//! source file is walked, each tagged with the function it occurs in.
use vstd::prelude::*;
use vstd::string::StringExecFns;

use crate::source_text::{line_col, offset_to_line_col};

verus! {

/// How one symbol refers to another.
#[derive(Debug, Clone, Copy, PartialEq, Eq, Structural)]
pub enum ReferenceType {
    Call,
    NewExpression,
    PropertyAccess,
}

/// The stored name of a reference type.
pub open spec fn reference_label(t: ReferenceType) -> Seq<char> {
    match t {
        ReferenceType::Call => "call"@,
        ReferenceType::NewExpression => "new"@,
        ReferenceType::PropertyAccess => "property"@,
    }
}

impl ReferenceType {
    /// The name under which the reference type is stored.
    pub fn as_str(&self) -> (s: &'static str)
        ensures
            s@ == reference_label(*self),
    {
        match self {
            ReferenceType::Call => "call",
            ReferenceType::NewExpression => "new",
            ReferenceType::PropertyAccess => "property",
        }
    }
}

/// A symbol reference (call, instantiation, property access).
#[derive(Debug)]
pub struct SymbolReference {
    pub callee_name: String,
    pub reference_type: ReferenceType,
    pub source_line: i64,
    pub source_column: i64,
    pub enclosing_function: Option<String>,
}

/// The callee of a call expression.
pub enum Callee {
    /// A plain name: `foo()`.
    Identifier(String),
    /// A static member: `obj.prop()`; `object` is set when the object is a
    /// plain name.
    Member { object: Option<String>, property: String },
    Other,
}

#[allow(inconsistent_fields)]
/// A syntax node as the reference walk sees it.
pub enum RefNode {
    /// A function; `name` is its declared name, if any.
    Function { name: Option<String> },
    /// A call expression starting at byte `start`.
    Call { callee: Callee, start: u32 },
    /// A `new` expression starting at byte `start`; `callee` is set when
    /// the constructor is a plain name.
    New { callee: Option<String>, start: u32 },
    Other,
}

/// The name recorded for a callee: `foo`, or `obj.prop` for a member of a
/// plain name.
pub open spec fn callee_name(c: Callee) -> Option<Seq<char>> {
    match c {
        Callee::Identifier(n) => Some(n@),
        Callee::Member { object, property } => match object {
            Some(o) => Some(o@ + "."@ + property@),
            None => None,
        },
        Callee::Other => None,
    }
}

/// A reference found at byte `start`.
pub open spec fn reference_at(
    r: SymbolReference,
    name: Seq<char>,
    t: ReferenceType,
    enclosing: Option<String>,
    src: Seq<u8>,
    start: u32,
) -> bool {
    &&& r.callee_name@ == name
    &&& r.reference_type == t
    &&& r.source_line == line_col(src, start as int).0
    &&& r.source_column == line_col(src, start as int).1
    &&& r.enclosing_function == enclosing
}

/// What entering `node` does to the references and the enclosing function.
pub open spec fn ref_entered(
    old_refs: Seq<SymbolReference>,
    old_fn: Option<String>,
    refs: Seq<SymbolReference>,
    func: Option<String>,
    src: Seq<u8>,
    node: RefNode,
) -> bool {
    match node {
        RefNode::Function { name } => refs == old_refs && func == name,
        RefNode::Call { callee, start } => func == old_fn && match callee_name(callee) {
            Some(n) => refs.len() == old_refs.len() + 1 && refs.drop_last() == old_refs && reference_at(
                refs.last(),
                n,
                ReferenceType::Call,
                old_fn,
                src,
                start,
            ),
            None => refs == old_refs,
        },
        RefNode::New { callee, start } => func == old_fn && match callee {
            Some(n) => refs.len() == old_refs.len() + 1 && refs.drop_last() == old_refs && reference_at(
                refs.last(),
                n@,
                ReferenceType::NewExpression,
                old_fn,
                src,
                start,
            ),
            None => refs == old_refs,
        },
        RefNode::Other => refs == old_refs && func == old_fn,
    }
}

/// Walk state: the references found so far and the function being walked.
pub struct RefCollector {
    pub references: Vec<SymbolReference>,
    pub enclosing_function: Option<String>,
}

fn clone_name(s: &Option<String>) -> (r: Option<String>)
    ensures
        r == *s,
{
    match s {
        Some(x) => Some(x.clone()),
        None => None,
    }
}

/// The name a call is recorded under, if it is recorded.
pub fn call_name(callee: Callee) -> (r: Option<String>)
    ensures
        match callee_name(callee) {
            Some(n) => r matches Some(s) && s@ == n,
            None => r is None,
        },
{
    match callee {
        Callee::Identifier(n) => Some(n),
        Callee::Member { object, property } => match object {
            Some(o) => {
                let dotted = o.concat(".");
                Some(dotted.concat(property.as_str()))
            },
            None => None,
        },
        Callee::Other => None,
    }
}

impl RefCollector {
    /// An empty walk state.
    pub fn new() -> (c: Self)
        ensures
            c.references@.len() == 0,
            c.enclosing_function is None,
    {
        RefCollector { references: Vec::new(), enclosing_function: None }
    }

    /// Takes in one node on the way down the syntax tree.
    pub fn enter_node(&mut self, src: &[u8], node: RefNode)
        requires
            src.len() < i64::MAX,
        ensures
            ref_entered(
                old(self).references@,
                old(self).enclosing_function,
                final(self).references@,
                final(self).enclosing_function,
                src@,
                node,
            ),
    {
        match node {
            RefNode::Function { name } => {
                self.enclosing_function = name;
            },
            RefNode::Call { callee, start } => {
                if let Some(n) = call_name(callee) {
                    let (line, col) = offset_to_line_col(src, start as usize);
                    let r = SymbolReference {
                        callee_name: n,
                        reference_type: ReferenceType::Call,
                        source_line: line,
                        source_column: col,
                        enclosing_function: clone_name(&self.enclosing_function),
                    };
                    self.references.push(r);
                    proof {
                        assert(self.references@.drop_last() =~= old(self).references@);
                    }
                }
            },
            RefNode::New { callee, start } => {
                if let Some(n) = callee {
                    let (line, col) = offset_to_line_col(src, start as usize);
                    let r = SymbolReference {
                        callee_name: n,
                        reference_type: ReferenceType::NewExpression,
                        source_line: line,
                        source_column: col,
                        enclosing_function: clone_name(&self.enclosing_function),
                    };
                    self.references.push(r);
                    proof {
                        assert(self.references@.drop_last() =~= old(self).references@);
                    }
                }
            },
            RefNode::Other => {},
        }
    }

    /// Leaves a function on the way back up the syntax tree.
    pub fn leave_function(&mut self)
        ensures
            final(self).references@ == old(self).references@,
            final(self).enclosing_function is None,
    {
        self.enclosing_function = None;
    }
}

} // verus!
