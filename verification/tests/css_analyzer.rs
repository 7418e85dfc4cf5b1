use std::path::Path;

use codecompass::css_analyzer::CssAnalyzer;
use codecompass::ts_js::ImportType;

#[test]
fn double_quoted_import() {
    let src = r#"@import "base.css";"#;
    let (result, success) = CssAnalyzer.parse(1, Path::new(""), Path::new(""), src);
    assert!(success);
    assert_eq!(result.imports.len(), 1);
    assert_eq!(result.imports[0].target_specifier, "base.css");
}

#[test]
fn single_quoted_import() {
    let src = r#"@import 'reset.css';"#;
    let (result, _success) = CssAnalyzer.parse(1, Path::new(""), Path::new(""), src);
    assert_eq!(result.imports[0].target_specifier, "reset.css");
}

#[test]
fn url_import() {
    let src = r#"@import url("theme.css");"#;
    let (result, _) = CssAnalyzer.parse(1, Path::new(""), Path::new(""), src);
    assert_eq!(result.imports[0].target_specifier, "theme.css");
}

#[test]
fn css_analyzer_multiple_imports() {
    let src = "@import \"a.css\";\n@import \"b.css\";\nbody { color: red; }";
    let (result, _) = CssAnalyzer.parse(1, Path::new(""), Path::new(""), src);
    assert_eq!(result.imports.len(), 2);
}

#[test]
fn no_imports() {
    let src = "body { color: red; }";
    let (result, _) = CssAnalyzer.parse(1, Path::new(""), Path::new(""), src);
    assert_eq!(result.imports.len(), 0);
}

#[test]
fn empty_css() {
    let (result, success) = CssAnalyzer.parse(1, Path::new(""), Path::new(""), "");
    assert!(success);
    assert!(result.imports.is_empty());
}

#[test]
fn strip_query_params() {
    let src = r#"@import "theme.css?v=2";"#;
    let (result, _) = CssAnalyzer.parse(1, Path::new(""), Path::new(""), src);
    assert_eq!(result.imports[0].target_specifier, "theme.css");
}

#[test]
fn css_import_records_line_numbers_and_fields() {
    let src = "body {}\r\n  @IMPORT url('x.css')  \n\n@import \"y.css\"\n";
    let (result, _) = CssAnalyzer.parse(7, Path::new(""), Path::new(""), src);
    assert_eq!(result.imports.len(), 2);
    assert_eq!(result.imports[0].target_specifier, "x.css");
    assert_eq!(result.imports[0].start_line, Some(2));
    assert_eq!(result.imports[0].start_column, Some(1));
    assert_eq!(result.imports[0].source_file_id, 7);
    assert_eq!(result.imports[0].import_type, ImportType::StaticImport);
    assert!(!result.imports[0].is_external);
    assert!(result.imports[0].resolved_target.is_none());
    assert_eq!(result.imports[1].target_specifier, "y.css");
    assert_eq!(result.imports[1].start_line, Some(4));
    assert!(result.diagnostics.is_empty());
}

#[test]
fn css_import_without_quotes_is_ignored() {
    let (result, _) = CssAnalyzer.parse(1, Path::new(""), Path::new(""), "@import base.css;\n@importx");
    assert!(result.imports.is_empty());
}

#[test]
fn css_unterminated_quote_takes_rest_of_line() {
    let (result, _) = CssAnalyzer.parse(1, Path::new(""), Path::new(""), "@import \"open.css");
    assert_eq!(result.imports[0].target_specifier, "open.css");
}
