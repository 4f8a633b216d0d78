use pidc::diag::DiagEngine;
use pidc::lexer::lex;
use pidc::normalize::normalize;
use pidc::parser::parse;
use pidc::validate::validate;

const SAMPLE: &str = "\
equipment P101:
  type: pump
  at: (10,8)
  ports: in, out
  label: \"P-101\"

valve CV101:
  type: control_valve
  actuator: pneumatic
  fail: closed
  at: (16,8)
  ports: in, out
  label: \"CV-101\"

equipment E101:
  type: heat_exchanger
  at: (24,8)
  ports:
    in: west
    out: east
    top: north
  label: \"E-101\"

line L100:
  class: process
  from: P101.out
  to: CV101.in

line L101:
  class: process
  from: CV101.out
  to: E101.in

instrument TI101:
  type: temperature_indicator
  attach: E101.top
  location: field
  label: \"TI-101\"

instrument TIC101:
  type: temperature_controller
  at: (24,3)
  location: panel
  label: \"TIC-101\"

signal S100:
  type: electrical
  from: TI101
  to: TIC101

signal S101:
  type: pneumatic
  from: TIC101
  to: CV101
";

fn compile_sample() -> (pidc::model::Diagram, DiagEngine) {
    let mut diags = DiagEngine::new();
    let lines = lex(SAMPLE, &mut diags);
    let doc = parse(&lines, &mut diags);
    let diagram = normalize(&doc, &mut diags);
    validate(&diagram, &mut diags);
    (diagram, diags)
}

#[test]
fn test_sample_parses_ok() {
    let (_, diags) = compile_sample();
    assert!(!diags.has_errors(), "Sample should parse without errors: {:?}", diags.diagnostics);
}

#[test]
fn test_sample_validates_ok() {
    let (_, diags) = compile_sample();
    let errors: Vec<_> = diags.diagnostics.iter()
        .filter(|d| d.severity == pidc::diag::Severity::Error)
        .collect();
    assert!(errors.is_empty(), "Sample should validate without errors: {:?}", errors);
}

#[test]
fn test_inline_form_parses() {
    let src = "line L100 class=process from=P101.out to=CV101.in\n\
               equipment P101:\n  type: pump\n\
               equipment CV101:\n  type: pump\n";
    let mut diags = DiagEngine::new();
    let lines = lex(src, &mut diags);
    let doc = parse(&lines, &mut diags);
    let diagram = normalize(&doc, &mut diags);
    assert!(!diags.has_errors(), "{:?}", diags.diagnostics);
    assert_eq!(diagram.lines.len(), 1);
    assert_eq!(diagram.equipment.len(), 2);
}

#[test]
fn test_check_rejects_invalid() {
    // Missing required `type` property for equipment
    let src = "equipment P101:\n  at: (1,1)\n";
    let mut diags = DiagEngine::new();
    let lines = lex(src, &mut diags);
    let doc = parse(&lines, &mut diags);
    let diagram = normalize(&doc, &mut diags);
    validate(&diagram, &mut diags);
    assert!(diags.has_errors(), "Should have errors for missing `type`");
}

#[test]
fn test_unresolved_references_detected() {
    let src = "line L1:\n  class: process\n  from: GHOST\n  to: PHANTOM\n";
    let mut diags = DiagEngine::new();
    let lines = lex(src, &mut diags);
    let doc = parse(&lines, &mut diags);
    let diagram = normalize(&doc, &mut diags);
    validate(&diagram, &mut diags);
    assert!(diags.has_errors());
}
