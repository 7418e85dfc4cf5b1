use codecompass::references::{Callee, RefCollector, RefNode, ReferenceType};
use codecompass::symbols::{SymbolCollector, SymbolKind, SymbolNode, Visibility};
use codecompass::ts_js::{classify_import, import_record, ImportNode, ImportType, Resolution};

#[test]
fn function_symbol_gets_its_line() {
    let src = "// c\nfunction foo() {}";
    let mut c = SymbolCollector::new();
    c.enter_node(src.as_bytes(), SymbolNode::Function { name: Some("foo".to_string()), start: 5, end: 22 });
    assert_eq!(c.symbols.len(), 1);
    assert_eq!(c.symbols[0].name, "foo");
    assert_eq!(c.symbols[0].kind, SymbolKind::Function);
    assert_eq!(c.symbols[0].source_line, 2);
    assert_eq!(c.symbols[0].source_column, 1);
    assert_eq!(c.symbols[0].source_end_line, 2);
    assert_eq!(c.symbols[0].source_end_column, 18);
    assert_eq!(c.symbols[0].visibility, Visibility::Public);
}

#[test]
fn methods_carry_their_class() {
    let src = "class Foo { bar() {} }";
    let mut c = SymbolCollector::new();
    c.enter_node(src.as_bytes(), SymbolNode::Class { name: Some("Foo".to_string()), start: 0, end: 22 });
    c.enter_node(src.as_bytes(), SymbolNode::Function { name: Some("bar".to_string()), start: 12, end: 20 });
    c.leave_class();
    c.enter_node(src.as_bytes(), SymbolNode::Function { name: Some("baz".to_string()), start: 0, end: 1 });
    assert_eq!(c.symbols[0].kind, SymbolKind::Class);
    assert_eq!(c.symbols[1].parent_name.as_deref(), Some("Foo"));
    assert_eq!(c.symbols[2].parent_name, None);
}

#[test]
fn react_components_are_detected() {
    let src = "function App() { return <div />; }";
    let mut c = SymbolCollector::new();
    c.enter_node(src.as_bytes(), SymbolNode::Function { name: Some("App".to_string()), start: 0, end: src.len() as u32 });
    c.enter_node(
        src.as_bytes(),
        SymbolNode::Variable { name: Some("Add".to_string()), has_init: true, init_is_arrow: true, start: 0, end: 3 },
    );
    c.enter_node(
        src.as_bytes(),
        SymbolNode::Variable { name: Some("x".to_string()), has_init: true, init_is_arrow: false, start: 0, end: 3 },
    );
    assert_eq!(c.symbols.len(), 2);
    assert_eq!(c.symbols[0].kind, SymbolKind::ReactComponent);
    assert_eq!(c.symbols[1].kind, SymbolKind::ReactComponent);
    assert_eq!(SymbolKind::ReactComponent.as_str(), "react_component");
    assert_eq!(SymbolKind::TypeAlias.as_str(), "type");
}

#[test]
fn export_marks_the_symbol_it_covers() {
    let src = "export function x() {}\nfunction y() {}";
    let mut c = SymbolCollector::new();
    c.enter_node(src.as_bytes(), SymbolNode::Function { name: Some("x".to_string()), start: 7, end: 22 });
    c.enter_node(src.as_bytes(), SymbolNode::ExportNamed { has_source: false, start: 0, end: 22 });
    assert!(c.symbols[0].is_exported);
    assert_eq!(c.symbols[0].visibility, Visibility::Exported);
    c.enter_node(src.as_bytes(), SymbolNode::Function { name: Some("y".to_string()), start: 23, end: 38 });
    c.enter_node(src.as_bytes(), SymbolNode::ExportNamed { has_source: false, start: 0, end: 22 });
    assert!(!c.symbols[1].is_exported);
    c.enter_node(src.as_bytes(), SymbolNode::ExportNamed { has_source: true, start: 0, end: 100 });
    assert!(!c.symbols[1].is_exported);
}

#[test]
fn references_record_calls_and_constructors() {
    let src = "function main() {\n  foo();\n  console.log(1);\n  new Map();\n}\nbar();";
    let mut c = RefCollector::new();
    c.enter_node(src.as_bytes(), RefNode::Function { name: Some("main".to_string()) });
    c.enter_node(src.as_bytes(), RefNode::Call { callee: Callee::Identifier("foo".to_string()), start: 20 });
    c.enter_node(
        src.as_bytes(),
        RefNode::Call {
            callee: Callee::Member { object: Some("console".to_string()), property: "log".to_string() },
            start: 29,
        },
    );
    c.enter_node(src.as_bytes(), RefNode::Call { callee: Callee::Other, start: 0 });
    c.enter_node(src.as_bytes(), RefNode::New { callee: Some("Map".to_string()), start: 47 });
    c.leave_function();
    c.enter_node(src.as_bytes(), RefNode::Call { callee: Callee::Identifier("bar".to_string()), start: 60 });
    let r = &c.references;
    assert_eq!(r.len(), 4);
    assert_eq!(r[0].callee_name, "foo");
    assert_eq!(r[0].source_line, 2);
    assert_eq!(r[0].source_column, 3);
    assert_eq!(r[0].enclosing_function.as_deref(), Some("main"));
    assert_eq!(r[1].callee_name, "console.log");
    assert_eq!(r[2].reference_type, ReferenceType::NewExpression);
    assert_eq!(r[2].reference_type.as_str(), "new");
    assert_eq!(r[3].enclosing_function, None);
    assert_eq!(r[3].source_line, 6);
}

#[test]
fn import_nodes_are_classified() {
    let r = classify_import(ImportNode::ImportDeclaration { specifier: "react".to_string(), offset: 3 }).unwrap();
    assert_eq!(r.1, ImportType::StaticImport);
    let r = classify_import(ImportNode::ExportAll { specifier: "./x".to_string(), offset: 0 }).unwrap();
    assert_eq!(r.1, ImportType::ReExportAll);
    assert!(classify_import(ImportNode::ExportNamed { source: None }).is_none());
    let r = classify_import(ImportNode::Call {
        callee: Some("require".to_string()),
        first_arg: Some(("fs".to_string(), 9)),
    })
    .unwrap();
    assert_eq!(r.0, "fs");
    assert_eq!(r.1, ImportType::Require);
    assert!(classify_import(ImportNode::Call { callee: Some("load".to_string()), first_arg: Some(("fs".to_string(), 9)) })
        .is_none());
    assert!(classify_import(ImportNode::ImportExpression { literal: None }).is_none());
    assert_eq!(ImportType::ReExport.as_str(), "re_export");
}

#[test]
fn import_records_carry_position_and_resolution() {
    let src = "import a from 'a';\nimport b from './b';";
    let rec = import_record(4, src.as_bytes(), "./b".to_string(), ImportType::StaticImport, 33, Resolution::Unresolved).unwrap();
    assert_eq!(rec.start_line, Some(2));
    assert_eq!(rec.start_column, Some(15));
    assert!(!rec.is_external);
    assert!(rec.resolved_target.is_none());
    let ext = import_record(4, src.as_bytes(), "a".to_string(), ImportType::StaticImport, 14, Resolution::External).unwrap();
    assert!(ext.is_external);
    assert!(import_record(4, src.as_bytes(), String::new(), ImportType::Require, 0, Resolution::External).is_none());
}
