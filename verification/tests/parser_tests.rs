use pidc::ast::{DeclForm, Document, PropVal, Value};
use pidc::diag::DiagEngine;
use pidc::lexer::lex;
use pidc::parser::parse;

fn parse_src(src: &str) -> (Document, DiagEngine) {
    let mut diags = DiagEngine::new();
    let lines = lex(src, &mut diags);
    let doc = parse(&lines, &mut diags);
    (doc, diags)
}

#[test]
fn test_inline_decl() {
    let (doc, diags) = parse_src("line L100 class=process from=P101.out to=CV101.in");
    assert!(!diags.has_errors(), "{:?}", diags.diagnostics);
    assert_eq!(doc.decls.len(), 1);
    let decl = &doc.decls[0];
    assert_eq!(decl.id, "L100");
    assert!(matches!(decl.form, DeclForm::Inline(_)));
    let props = decl.form.props();
    assert_eq!(props.len(), 3);
    assert_eq!(props[0].key, "class");
    assert_eq!(props[1].key, "from");
    assert_eq!(props[2].key, "to");
}

#[test]
fn test_block_decl() {
    let src = "line L100:\n  class: process\n  from: P101.out\n  to: CV101.in\n";
    let (doc, diags) = parse_src(src);
    assert!(!diags.has_errors(), "{:?}", diags.diagnostics);
    assert_eq!(doc.decls.len(), 1);
    let props = doc.decls[0].form.props();
    assert_eq!(props.len(), 3);
}

#[test]
fn test_nested_ports_block() {
    let src = "equipment E101:\n  type: heat_exchanger\n  ports:\n    in: west\n    out: east\n";
    let (doc, diags) = parse_src(src);
    assert!(!diags.has_errors(), "{:?}", diags.diagnostics);
    let props = doc.decls[0].form.props();
    assert_eq!(props.len(), 2);
    // ports should be a Block
    assert!(matches!(props[1].value, PropVal::Block(_)));
}

#[test]
fn test_comment_and_blank() {
    let src = "# comment\n\nequipment P101:\n  type: pump\n";
    let (doc, diags) = parse_src(src);
    assert!(!diags.has_errors());
    assert_eq!(doc.decls.len(), 1);
}

#[test]
fn test_tuple_value() {
    let src = "equipment P101:\n  at: (10,8)\n  type: pump\n";
    let (doc, diags) = parse_src(src);
    assert!(!diags.has_errors(), "{:?}", diags.diagnostics);
    let props = doc.decls[0].form.props();
    assert!(matches!(&props[0].value, PropVal::Value(Value::Tuple(v)) if *v == vec![10, 8]));
}

#[test]
fn test_list_value() {
    let src = "equipment P101:\n  type: pump\n  ports: in, out\n";
    let (doc, diags) = parse_src(src);
    assert!(!diags.has_errors(), "{:?}", diags.diagnostics);
    let props = doc.decls[0].form.props();
    assert!(matches!(&props[1].value, PropVal::Value(Value::List(v)) if v.len() == 2));
}

#[test]
fn test_tab_error() {
    let src = "\tequipment P101:\n";
    let (_doc, diags) = parse_src(src);
    assert!(diags.has_errors());
}
