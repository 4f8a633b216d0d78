use pidc::ast::{DeclKind, Value};
use pidc::compile::analyze;
use pidc::diag::{DiagEngine, Diagnostic, Severity};
use pidc::dump::dump_diagram;
use pidc::edit::find_framed_owner;
use pidc::layout::{
    endpoint_side, get_explicit_pos, infer_port_side, is_mounted_above, is_port_used,
    is_vertical_side, opposite, port_slot, spare_ports, symbol_shape, valve_is_vertical,
    SymbolShape,
};
use pidc::lexer::{ident_byte, lex, white_space};
use pidc::model::{Diagram, GridPos, IdMap, ObjRef, Port, Side, Valve};
use pidc::render::{
    build_legend_items, build_styles, bubble_lines, equipment_key_label, escape_xml,
    instrument_key_label, json_string, label_lines, legend_label, line_class_for_id,
    line_class_label, line_presentation_attrs, signal_class_for_id, signal_type_label,
    table_keys, valve_annotations, valve_key_label, valve_tag, LegendItem, SvgOptions,
};
use pidc::span::Span;
use pidc::symbols::{equipment_symbol_key, instrument_symbol_key, valve_symbol_key};

const SAMPLE: &str = "\
equipment P101:
  type: pump
  at: (10,8)
  ports: in, out
  label: \"P-101\"

valve CV101:
  type: control_valve
  actuator: pneumatic
  fail: closed
  at: (16,8)
  ports: in, out
  label: \"CV-101\"

equipment E101:
  type: heat_exchanger
  at: (24,8)
  ports:
    in: west
    out: east
    top: north
  label: \"E-101\"

line L100:
  class: process
  from: P101.out
  to: CV101.in

line L101:
  class: process
  from: CV101.out
  to: E101.in

instrument TI101:
  type: temperature_indicator
  attach: E101.top
  location: field
  label: \"TI-101\"

instrument TIC101:
  type: temperature_controller
  at: (24,3)
  location: panel
  label: \"TIC-101\"

signal S100:
  type: electrical
  from: TI101
  to: TIC101

signal S101:
  type: pneumatic
  from: TIC101
  to: CV101
";

fn messages(diags: &DiagEngine) -> Vec<String> {
    diags.diagnostics.iter().map(|d| d.message.clone()).collect()
}

// ---- Character classes ----

#[test]
fn ident_bytes_are_latin1_alphanumerics() {
    for b in 0u8..=255 {
        let c = b as char;
        assert_eq!(ident_byte(b), c.is_alphanumeric() || c == '_' || c == '-', "byte {b}");
    }
}

#[test]
fn white_space_is_unicode_white_space() {
    for u in 0u32..=0x10FFFF {
        if let Some(c) = char::from_u32(u) {
            assert_eq!(white_space(c), c.is_whitespace(), "char {u:#x}");
        }
    }
}

// ---- Lexing ----

#[test]
fn identifiers_cut_inside_characters_are_reported() {
    let mut diags = DiagEngine::new();
    let lines = lex("equipment Pé1:\n  type: pump → x\n", &mut diags);
    assert_eq!(lines.len(), 2);
    assert_eq!(lines[0].tokens.len(), 3);
    assert_eq!(lines[0].tokens[1].token.as_ident(), Some("1"));
    assert_eq!((lines[0].tokens[1].span.start, lines[0].tokens[1].span.end), (13, 14));
    assert_eq!(
        messages(&diags),
        vec!["unexpected character 'Pé'".to_string(), "unexpected character '→'".to_string()]
    );
    assert_eq!((diags.diagnostics[0].span.unwrap().start, diags.diagnostics[0].span.unwrap().end), (10, 13));
    let mut quiet = DiagEngine::new();
    let ok = lex("equipment Pú type=pump\nnote N1 text=\"é\"\n", &mut quiet);
    assert!(quiet.diagnostics.is_empty());
    assert_eq!(ok[0].tokens[1].token.as_ident(), Some("Pú"));
}

#[test]
fn odd_indentation_is_reported() {
    let mut diags = DiagEngine::new();
    let _ = lex("equipment P1:\n   type: pump\n", &mut diags);
    assert_eq!(messages(&diags), vec!["indentation must be a multiple of 2 spaces, found 3 space(s)"]);
    assert_eq!(diags.diagnostics[0].help.as_deref(), Some("use 2-space indentation only"));
}

#[test]
fn tabs_are_reported_with_help() {
    let mut diags = DiagEngine::new();
    let _ = lex("\tequipment P101:\n", &mut diags);
    assert_eq!(messages(&diags), vec!["tabs are not allowed for indentation; use 2 spaces per level"]);
    assert_eq!(diags.diagnostics[0].span, Some(Span::new(1, 1, 0, 1)));
}

// ---- Spans and diagnostics ----

#[test]
fn span_merge_covers_both() {
    let a = Span::new(3, 5, 10, 12);
    let b = Span::new(2, 7, 4, 20);
    assert_eq!(a.merge(b), Span::new(2, 5, 4, 20));
    assert_eq!(a.merge(b), b.merge(a));
    assert_eq!(a.merge(a), a);
    assert_eq!(Span::point(4, 2, 9), Span::new(4, 2, 9, 9));
    assert_eq!(a.display(), "3:5");
    assert_eq!(Span::default(), Span::new(0, 0, 0, 0));
}

#[test]
fn strict_mode_counts_warnings_as_errors() {
    let mut diags = DiagEngine::new();
    diags.warn("careful".to_string());
    assert!(!diags.has_errors());
    assert_eq!(diags.warning_count(), 1);
    assert_eq!(diags.error_count(), 0);
    let strict = diags.with_strict(true);
    assert!(strict.has_errors());
    let mut e = DiagEngine::new();
    e.error_at(Span::new(1, 1, 0, 1), "bad".to_string());
    assert!(e.has_errors());
    assert_eq!(e.error_count() + e.warning_count(), e.diagnostics.len());
    assert_eq!(Severity::Error.as_str(), "error");
    assert_eq!(Severity::Warning.as_str(), "warning");
}

#[test]
fn diagnostic_report_shows_snippet_and_carets() {
    let src = "equipment P101:\n  at: (1,1)\n";
    let (_doc, _diagram, diags) = analyze(src, false);
    assert_eq!(diags.diagnostics.len(), 1);
    let text = diags.diagnostics[0].report(src, "f.pid");
    assert_eq!(
        text,
        "f.pid:1:1: error: equipment `P101` is missing required property `type`\n 1 | equipment P101:\n   | ^^^^^^^^^^^^^^\n    ^^^^^^^^^^^^^^\n"
    );
    assert_eq!(diags.report_all(src, "f.pid"), text);
}

#[test]
fn diagnostic_report_without_span_has_note_and_help() {
    let d = Diagnostic::warning("hm".to_string())
        .with_note("a note".to_string())
        .with_help("a hint".to_string());
    assert_eq!(d.report("x", "f.pid"), "f.pid: warning: hm\n  note: a note\n  help: a hint\n");
}

#[test]
fn source_lines_follow_str_lines() {
    for src in ["", "a", "a\n", "a\r\nb\r\n", "\n\nx", "x\r", "a\n\r\n"] {
        let ours: Vec<&str> = pidc::diag::source_lines(src);
        let std_lines: Vec<&str> = src.lines().collect();
        assert_eq!(ours, std_lines, "source {src:?}");
    }
}

// ---- Syntax tree ----

#[test]
fn kinds_round_trip_through_keywords() {
    for k in [
        DeclKind::Equipment, DeclKind::Valve, DeclKind::Line, DeclKind::Instrument,
        DeclKind::Signal, DeclKind::Group, DeclKind::Area, DeclKind::Note, DeclKind::Junction,
    ] {
        assert_eq!(DeclKind::from_str(k.name()), Some(k));
    }
    assert_eq!(DeclKind::from_str("pipe"), None);
}

#[test]
fn values_display_as_written() {
    assert_eq!(Value::Tuple(vec![3, -4]).display(), "(3,-4)");
    assert_eq!(Value::Ref("P1".to_string(), Some("out".to_string())).display(), "P1.out");
    assert_eq!(Value::List(vec!["a".to_string(), "b".to_string()]).display(), "a, b");
    assert_eq!(ObjRef::new("V1".to_string(), None).display(), "V1");
}

// ---- Normalization ----

#[test]
fn duplicate_id_reports_error_with_note() {
    let src = "equipment P101:\n  type: pump\n\nequipment P101:\n  type: vessel\n";
    let (_doc, diagram, diags) = analyze(src, false);
    let d = &diags.diagnostics[0];
    assert_eq!(d.message, "duplicate declaration ID `P101`");
    assert_eq!(d.note.as_deref(), Some("each ID must be unique across all declarations"));
    assert_eq!(d.span, Some(Span::new(4, 1, 0, 14)));
    // The first declaration wins.
    assert_eq!(diagram.equipment.len(), 1);
    assert_eq!(diagram.equipment.get("P101").unwrap().equip_type, "pump");
}

#[test]
fn ids_are_unique_across_kinds() {
    let src = "equipment X1:\n  type: pump\nvalve X1 type=gate\njunction J1\nnote J1 text=\"n\"\n";
    let (_doc, diagram, diags) = analyze(src, false);
    assert_eq!(diags.error_count(), 2);
    let order: Vec<&str> = diagram.order.iter().map(|(_, id)| id.as_str()).collect();
    assert_eq!(order, vec!["X1", "J1"]);
    assert_eq!(diagram.valves.len(), 0);
    assert_eq!(diagram.notes.len(), 0);
}

#[test]
fn missing_and_unknown_properties() {
    let src = "equipment E1:\n  colour: red\n";
    let (_doc, _diagram, diags) = analyze(src, false);
    assert_eq!(
        messages(&diags),
        vec![
            "unknown property `colour` on `equipment` declaration",
            "equipment `E1` is missing required property `type`",
        ]
    );
    assert_eq!(diags.diagnostics[0].severity, Severity::Warning);
    assert_eq!(diags.diagnostics[1].severity, Severity::Error);
}

#[test]
fn line_and_signal_requirements() {
    let (_d, _g, diags) = analyze("line L1 from=A\n", false);
    assert_eq!(messages(&diags), vec!["line `L1` is missing required property `class`"]);
    let (_d, _g, diags) = analyze("line L1 class=process\n", false);
    assert_eq!(messages(&diags), vec!["line `L1` is missing required property `from`"]);
    let (_d, _g, diags) = analyze("signal S1 type=digital from=A\n", false);
    assert_eq!(messages(&diags), vec!["signal `S1` is missing required property `to`"]);
    let (_d, g, diags) = analyze("junction J1\nline L1 class=drain from=J1\n", false);
    assert!(!diags.has_errors(), "{:?}", diags.diagnostics);
    assert!(g.lines.get("L1").unwrap().to.is_none());
}

#[test]
fn ports_that_describe_no_ports_are_warned_about() {
    let src = "equipment E1:\n  type: pump\n  ports: (1,2)\nequipment E2:\n  type: pump\n  ports: a.b\n";
    let (_doc, diagram, diags) = analyze(src, false);
    assert_eq!(
        messages(&diags),
        vec![
            "could not parse `ports` value: Value(Tuple([1, 2]))",
            "could not parse `ports` value: Value(Ref(\"a\", Some(\"b\")))",
        ]
    );
    assert!(diagram.equipment.get("E1").unwrap().ports.is_empty());
}

#[test]
fn port_blocks_read_sides() {
    let src = "equipment E1:\n  type: pump\n  ports:\n    in: west\n    out: up\n    aux: \"\"\n";
    let (_doc, diagram, diags) = analyze(src, false);
    assert_eq!(messages(&diags), vec!["unknown port side `up` for port `out`"]);
    let ports = &diagram.equipment.get("E1").unwrap().ports;
    assert_eq!(ports.len(), 3);
    assert_eq!(ports[0].side, Some(Side::West));
    assert_eq!(ports[1].side, None);
    assert_eq!(ports[2].name, "aux");
}

#[test]
fn quoted_references_split_at_the_first_dot() {
    let src = "equipment P1:\n  type: pump\nline L1 class=process from=\"P1.a.b\"\n";
    let (_doc, diagram, _diags) = analyze(src, false);
    let from = &diagram.lines.get("L1").unwrap().from;
    assert_eq!(from.id, "P1");
    assert_eq!(from.port.as_deref(), Some("a.b"));
}

#[test]
fn groups_and_flags() {
    let src = "group G1:\n  members: A, B\n  frame: yes\n  label: \"Unit\"\ngroup G2 members=(1,2)\nline L1 class=vent from=G1 flexible=true insulated=no\n";
    let (_doc, diagram, diags) = analyze(src, false);
    let g = diagram.groups.get("G1").unwrap();
    assert_eq!(g.members, vec!["A".to_string(), "B".to_string()]);
    assert!(g.frame);
    assert_eq!(g.label.as_deref(), Some("Unit"));
    assert!(diagram.groups.get("G2").is_none());
    assert!(messages(&diags).contains(&"group `G2` property `members` must be a comma-separated list".to_string()));
    let l = diagram.lines.get("L1").unwrap();
    assert!(l.flexible);
    assert!(!l.insulated);
}

#[test]
fn id_map_keeps_insertion_order() {
    let mut m: IdMap<u32> = IdMap::new();
    assert!(m.is_empty());
    m.insert("b".to_string(), 1);
    m.insert("a".to_string(), 2);
    m.insert("b".to_string(), 3);
    assert_eq!(m.len(), 2);
    assert_eq!(m.get("b"), Some(&3));
    assert_eq!(m.get("c"), None);
    assert!(m.contains_key("a"));
    assert_eq!(m.values(), &[3, 2]);
    assert_eq!(m.get_index(1), Some((&"a".to_string(), &2)));
    assert_eq!(m.get_index(2), None);
}

// ---- Validation ----

#[test]
fn validation_messages() {
    let src = "equipment P101:\n  type: pump\n  ports: in, out\n\nline L1:\n  class: steam\n  from: P101.nosuchport\n  to: GHOST\n";
    let (_doc, _diagram, diags) = analyze(src, false);
    assert_eq!(
        messages(&diags),
        vec![
            "unknown line class `steam` for `L1`; known classes: process, utility, drain, vent",
            "reference `P101.nosuchport` points to missing port `nosuchport`; declared ports: in, out",
            "line `L1` property `to` references unknown ID `GHOST`",
        ]
    );
}

#[test]
fn unknown_vocabulary_only_warns() {
    let src = "instrument I1:\n  type: gizmo\n  location: roof\nvalve V1 type=tap\nsignal S1 type=laser from=I1 to=V1\n";
    let (_doc, _diagram, diags) = analyze(src, false);
    assert!(!diags.has_errors());
    assert_eq!(diags.warning_count(), 4);
    // Valves are checked before instruments.
    assert_eq!(messages(&diags)[0], "unknown valve type `tap` for `V1`; known types: gate, globe, ball, butterfly, plug, control_valve, check_valve, relief_valve, safety_valve");
    assert_eq!(
        messages(&diags)[2],
        "unknown location `roof` for `I1`; known locations: field, panel, control_room, shared"
    );
    let (_d, _g, strict) = analyze(src, true);
    assert!(strict.has_errors());
}

#[test]
fn ports_are_free_when_none_declared() {
    let src = "equipment T1:\n  type: tank\nline L1 class=process from=T1.anything\n";
    let (_doc, _diagram, diags) = analyze(src, false);
    assert!(!diags.has_errors());
}

// ---- Dump ----

#[test]
fn dump_lists_every_section() {
    let src = "equipment P1:\n  type: pump\n  at: (1, 2)\n  label: \"P-1\"\n  ports:\n    in: west\n    out: east\n\nvalve V1 type=gate actuator=manual\nline L1 class=process from=P1.out to=V1\ninstrument I1 type=alarm attach=P1\nsignal S1 type=digital from=I1 to=V1\nline L2 class=drain from=V1.out\n";
    let (_doc, diagram, diags) = analyze(src, false);
    assert!(!diags.has_errors(), "{:?}", diags.diagnostics);
    assert_eq!(
        dump_diagram("x.pid", &diagram),
        "# Diagram dump for x.pid\n\n## Equipment (1 items)\n  P1 [pump]\n    at: (1, 2)\n    label: \"P-1\"\n    ports: in:West, out:East\n\n## Valves (1 items)\n  V1 [gate]\n    actuator: manual\n\n## Lines (2 items)\n  L1 [process]: P1.out -> V1\n  L2 [drain]: V1.out -> (open end)\n\n## Instruments (1 items)\n  I1 [alarm]\n    attach: P1\n\n## Signals (1 items)\n  S1 [digital]: I1 -> V1\n"
    );
}

// ---- Rendering text ----

#[test]
fn json_strings_escape_quotes_backslashes_and_controls() {
    assert_eq!(json_string("a\"b\\c\n\u{1}é"), "\"a\\\"b\\\\c\\u000a\\u0001é\"");
    assert_eq!(json_string(""), "\"\"");
}

#[test]
fn xml_escaping() {
    assert_eq!(escape_xml("<a href=\"x\">&</a>"), "&lt;a href=&quot;x&quot;&gt;&amp;&lt;/a&gt;");
    assert_eq!(escape_xml("plain 'text'"), "plain 'text'");
}

#[test]
fn labels_split_into_lines() {
    assert_eq!(label_lines("a\nb"), vec!["a", "b"]);
    assert_eq!(label_lines("a\n"), vec!["a", ""]);
    assert_eq!(label_lines(""), vec![""]);
    assert_eq!(bubble_lines("TT-101"), Some(("TT".to_string(), "101".to_string())));
    assert_eq!(bubble_lines("TIC\n101"), Some(("TIC".to_string(), "101".to_string())));
    assert_eq!(bubble_lines("TEMPERATURE-1"), None);
    assert_eq!(bubble_lines("ABC"), None);
    assert_eq!(bubble_lines("a\nb\nc"), None);
    assert_eq!(bubble_lines("ÄÖÜÄÖÜ-1"), Some(("ÄÖÜÄÖÜ".to_string(), "1".to_string())));
}

#[test]
fn styles_and_presentation() {
    let css = build_styles("  ", true);
    assert!(css.contains(".line-process { fill: none; stroke: black; stroke-width: 2; }"));
    assert_eq!(line_presentation_attrs("line-utility"), " fill=\"none\" stroke=\"black\" stroke-width=\"1\" stroke-dasharray=\"14,5\"");
    assert_eq!(line_presentation_attrs("nope"), " fill=\"none\" stroke=\"black\" stroke-width=\"1.5\"");
    let opts = SvgOptions::default();
    assert!(!opts.legend && !opts.pretty && opts.title.is_none() && opts.footers.is_empty());
}

#[test]
fn symbol_keys_and_labels() {
    assert_eq!(equipment_symbol_key("tank"), "vessel");
    assert_eq!(equipment_symbol_key("distillation_column"), "column");
    assert_eq!(equipment_symbol_key("spaceship"), "equipment_default");
    assert_eq!(valve_symbol_key("gate", Some("solenoid")), "valve_solenoid");
    assert_eq!(valve_symbol_key("control_valve", Some("diaphragm")), "control_valve_diaphragm");
    assert_eq!(valve_symbol_key("control_valve", None), "control_valve");
    assert_eq!(valve_symbol_key("safety_valve", None), "relief_valve");
    assert_eq!(valve_symbol_key("gate", None), "valve_manual");
    assert_eq!(instrument_symbol_key(None), "instr_field");
    assert_eq!(instrument_symbol_key(Some("control_room")), "instr_control_room");
    assert_eq!(equipment_key_label("column"), "Distillation column");
    assert_eq!(equipment_key_label("equipment_default"), "Equipment");
    assert_eq!(valve_key_label("valve_pcv"), "Pressure reducer (PCV)");
    assert_eq!(instrument_key_label("instr_shared"), "Shared display (DCS)");
    assert_eq!(line_class_label("vent"), "Vent line");
    assert_eq!(signal_type_label("laser"), "Signal");
}

#[test]
fn legend_lists_each_used_style_once() {
    let (_doc, diagram, _diags) = analyze(SAMPLE, false);
    let items = build_legend_items(&diagram);
    let labels: Vec<&str> = items.iter().map(legend_label).collect();
    assert_eq!(
        labels,
        vec![
            "Centrifugal pump", "Heat exchanger", "Control valve", "Field instrument",
            "Panel instrument", "Process line", "Electrical signal", "Pneumatic signal",
        ]
    );
    let src = "equipment S1 type=separator_3phase\nequipment S2 type=separator_3phase\njunction J1\nline L1 class=drain from=S1 flexible=yes\nline L2 class=drain from=S2 insulated=true\n";
    let (_doc, diagram, _diags) = analyze(src, false);
    let items = build_legend_items(&diagram);
    let labels: Vec<&str> = items.iter().map(legend_label).collect();
    assert_eq!(
        labels,
        vec!["Three-phase separator", "Demister pad", "Junction / tee", "Drain line", "Flexible tube", "Insulation"]
    );
    assert!(matches!(&items[0], LegendItem::Equipment { key: "separator_3phase", equip_type } if equip_type == "separator_3phase"));
}

#[test]
fn table_keys_in_first_seen_order() {
    let a = vec![("k1".to_string(), "v".to_string()), ("k2".to_string(), "v".to_string())];
    let b = vec![("k2".to_string(), "x".to_string()), ("k3".to_string(), "y".to_string())];
    let items: Vec<(&str, &Vec<(String, String)>)> = vec![("A", &a), ("B", &b)];
    assert_eq!(table_keys(&items), vec!["k1".to_string(), "k2".to_string(), "k3".to_string()]);
}

#[test]
fn css_classes_of_connections() {
    let (_doc, diagram, _diags) = analyze(SAMPLE, false);
    assert_eq!(line_class_for_id("L100", &diagram), "line-process");
    assert_eq!(line_class_for_id("nope", &diagram), "line-process");
    assert_eq!(signal_class_for_id("S101", &diagram), "signal-pneumatic");
    assert_eq!(signal_class_for_id("nope", &diagram), "signal-electrical");
}

// ---- Layout decisions ----

#[test]
fn port_sides() {
    assert_eq!(infer_port_side("inlet"), Some(Side::West));
    assert_eq!(infer_port_side("vent"), Some(Side::North));
    assert_eq!(infer_port_side("drain"), Some(Side::South));
    assert_eq!(infer_port_side("aux"), None);
    for s in [Side::North, Side::South, Side::East, Side::West] {
        assert_eq!(opposite(opposite(s)), s);
        assert_ne!(opposite(s), s);
        assert_eq!(is_vertical_side(opposite(s)), is_vertical_side(s));
    }
}

fn valve_with(ports: Vec<Port>) -> Valve {
    Valve {
        id: "V".to_string(),
        valve_type: "gate".to_string(),
        label: None,
        pos: None,
        ports,
        actuator: None,
        fail: None,
        state: None,
        setpoint: None,
    }
}

#[test]
fn vertical_valves() {
    let p = |n: &str, s: Option<Side>| Port { name: n.to_string(), side: s };
    assert!(valve_is_vertical(&valve_with(vec![p("a", Some(Side::North)), p("b", Some(Side::South))])));
    assert!(valve_is_vertical(&valve_with(vec![p("top", None), p("x", None)])));
    assert!(!valve_is_vertical(&valve_with(vec![p("in", None), p("out", None)])));
    assert!(!valve_is_vertical(&valve_with(vec![])));
}

#[test]
fn endpoint_sides_and_slots() {
    let (_doc, diagram, _diags) = analyze(SAMPLE, false);
    let r = |id: &str, port: Option<&str>| ObjRef::new(id.to_string(), port.map(|s| s.to_string()));
    assert_eq!(endpoint_side(&diagram, &r("P101", Some("out")), true), Side::East);
    assert_eq!(endpoint_side(&diagram, &r("E101", Some("top")), false), Side::North);
    assert_eq!(endpoint_side(&diagram, &r("E101", Some("xyz")), true), Side::East);
    assert_eq!(endpoint_side(&diagram, &r("TIC101", None), false), Side::West);
    let ports = diagram.get_ports("E101").unwrap();
    let slot = port_slot(ports, "top").unwrap();
    assert_eq!((slot.side, slot.index, slot.count), (Side::North, Some(0), 1));
    assert!(port_slot(ports, "xyz").is_none());
    let two = vec![
        Port { name: "a".to_string(), side: Some(Side::North) },
        Port { name: "b".to_string(), side: Some(Side::North) },
    ];
    let slot = port_slot(&two, "b").unwrap();
    assert_eq!((slot.side, slot.index, slot.count), (Side::North, Some(1), 2));
    let slot = port_slot(&two, "top").unwrap();
    assert_eq!((slot.side, slot.index, slot.count), (Side::North, None, 2));
}

#[test]
fn shapes_and_explicit_positions() {
    let src = "equipment V1:\n  type: vessel\n  size: (2,1)\nequipment V2 type=vessel\nequipment S1 type=separator_3phase\n";
    let (_doc, diagram, _diags) = analyze(src, false);
    assert_eq!(symbol_shape(&diagram, "V1"), SymbolShape::Capsule);
    assert_eq!(symbol_shape(&diagram, "V2"), SymbolShape::Rect);
    assert_eq!(symbol_shape(&diagram, "S1"), SymbolShape::Capsule);
    assert_eq!(symbol_shape(&diagram, "none"), SymbolShape::Rect);
    let (_doc, sample, _diags) = analyze(SAMPLE, false);
    assert_eq!(get_explicit_pos(&sample, &DeclKind::Equipment, "P101"), Some(GridPos { x: 10, y: 8 }));
    assert_eq!(get_explicit_pos(&sample, &DeclKind::Line, "L100"), None);
    assert_eq!(get_explicit_pos(&sample, &DeclKind::Instrument, "TI101"), None);
}

#[test]
fn valve_tags_and_annotations() {
    let with = |state: Option<&str>, fail: Option<&str>, setpoint: Option<&str>| {
        let mut v = valve_with(vec![]);
        v.state = state.map(|s| s.to_string());
        v.fail = fail.map(|s| s.to_string());
        v.setpoint = setpoint.map(|s| s.to_string());
        v
    };
    assert_eq!(valve_tag(&with(Some("nc"), Some("open"), None)), Some("N.C.".to_string()));
    assert_eq!(valve_tag(&with(Some("no"), None, None)), Some("N.O.".to_string()));
    assert_eq!(valve_tag(&with(Some("locked"), None, None)), Some("LOCKED".to_string()));
    assert_eq!(valve_tag(&with(None, Some("closed"), None)), Some("FC".to_string()));
    assert_eq!(valve_tag(&with(None, Some("open"), None)), Some("FO".to_string()));
    assert_eq!(valve_tag(&with(None, Some("last"), None)), Some("FL".to_string()));
    assert_eq!(valve_tag(&with(None, Some("stuck"), None)), None);
    assert_eq!(valve_tag(&with(None, None, None)), None);
    assert_eq!(
        valve_annotations(&with(Some("nc"), None, Some("5 barg"))),
        vec!["N.C.".to_string(), "5 barg".to_string()]
    );
    assert_eq!(valve_annotations(&with(None, None, Some("2 bar"))), vec!["2 bar".to_string()]);
    assert!(valve_annotations(&with(None, None, None)).is_empty());
}

#[test]
fn equipment_on_a_north_port_is_mounted_above() {
    let src = "\
equipment R1:
  type: reactor_cstr
  ports:
    drive: north
    out: south

equipment M1:
  type: motor
  attach: R1.drive

equipment M2:
  type: motor
  attach: R1.out

equipment M3:
  type: motor
  attach: R1.top

equipment M4:
  type: motor
  attach: R1
";
    let (_doc, diagram, _diags) = analyze(src, false);
    assert!(is_mounted_above(&diagram, "M1"));
    assert!(!is_mounted_above(&diagram, "M2"));
    assert!(is_mounted_above(&diagram, "M3"));
    assert!(!is_mounted_above(&diagram, "M4"));
    assert!(!is_mounted_above(&diagram, "R1"));
    assert!(!is_mounted_above(&diagram, "nothing"));
}

#[test]
fn unused_equipment_ports_are_spare() {
    let (_doc, diagram, _diags) = analyze(SAMPLE, false);
    assert!(is_port_used(&diagram, "P101", "out"));
    assert!(!is_port_used(&diagram, "P101", "in"));
    assert!(is_port_used(&diagram, "E101", "top"));
    assert!(is_port_used(&diagram, "CV101", "in"));
    let spare: Vec<(String, String)> = spare_ports(&diagram)
        .into_iter()
        .map(|(id, p)| (id, p.name))
        .collect();
    assert_eq!(
        spare,
        vec![("P101".to_string(), "in".to_string()), ("E101".to_string(), "out".to_string())]
    );
}

#[test]
fn members_of_framed_groups_have_an_owner() {
    let src = "\
equipment A type=pump
equipment B type=pump
group G1:
  members: A
group G2:
  members: A, B
  frame: true
group G3:
  members: B
  frame: yes
";
    let (_doc, diagram, _diags) = analyze(src, false);
    assert_eq!(find_framed_owner(&diagram.groups, "A"), Some("G2".to_string()));
    assert_eq!(find_framed_owner(&diagram.groups, "B"), Some("G2".to_string()));
    assert_eq!(find_framed_owner(&diagram.groups, "G1"), None);
}

#[test]
fn default_diagram_is_empty() {
    let d = Diagram::default();
    assert!(d.equipment.is_empty() && d.valves.is_empty() && d.lines.is_empty());
    assert!(d.groups.is_empty() && d.order.is_empty());
    assert!(!d.id_exists("anything"));
}

#[test]
fn each_object_is_recorded_with_the_kind_of_its_map() {
    let (_doc, diagram, _diags) = analyze(SAMPLE, false);
    for (kind, id) in &diagram.order {
        let in_maps = [
            (DeclKind::Equipment, diagram.equipment.contains_key(id)),
            (DeclKind::Valve, diagram.valves.contains_key(id)),
            (DeclKind::Line, diagram.lines.contains_key(id)),
            (DeclKind::Instrument, diagram.instruments.contains_key(id)),
            (DeclKind::Signal, diagram.signals.contains_key(id)),
        ];
        for (k, has) in in_maps {
            assert_eq!(has, k == *kind, "{id}");
        }
    }
    assert_eq!(diagram.order.len(), 9);
}
