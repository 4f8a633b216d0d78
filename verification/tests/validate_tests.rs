use pidc::diag::DiagEngine;
use pidc::lexer::lex;
use pidc::model::Diagram;
use pidc::normalize::normalize;
use pidc::parser::parse;
use pidc::validate::validate;

fn compile(src: &str) -> (Diagram, DiagEngine) {
    let mut diags = DiagEngine::new();
    let lines = lex(src, &mut diags);
    let doc = parse(&lines, &mut diags);
    let diagram = normalize(&doc, &mut diags);
    validate(&diagram, &mut diags);
    (diagram, diags)
}

#[test]
fn test_duplicate_ids() {
    let src = "equipment P101:\n  type: pump\n\nequipment P101:\n  type: vessel\n";
    let (_d, diags) = compile(src);
    assert!(diags.has_errors());
    assert!(diags.diagnostics.iter().any(|d| d.message.contains("duplicate")));
}

#[test]
fn test_unresolved_ref() {
    let src = "line L1:\n  class: process\n  from: MISSING\n  to: ALSOMISSING\n";
    let (_d, diags) = compile(src);
    assert!(diags.has_errors());
}

#[test]
fn test_bad_port_ref() {
    let src = "equipment P101:\n  type: pump\n  ports: in, out\n\nline L1:\n  class: process\n  from: P101.nosuchport\n  to: P101.out\n";
    let (_d, diags) = compile(src);
    assert!(diags.has_errors());
}

#[test]
fn test_missing_required_prop() {
    let src = "equipment P101:\n  at: (1,1)\n";
    let (_d, diags) = compile(src);
    assert!(diags.has_errors());
}

#[test]
fn test_unknown_enum() {
    let src = "equipment P101:\n  type: magical_unicorn\n";
    let (_d, diags) = compile(src);
    // Should have a warning (not an error) for unknown type
    assert!(diags.diagnostics.iter().any(|d| d.message.contains("unknown equipment type")));
}
