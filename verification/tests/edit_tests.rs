use pidc::edit::{edit_is_applicable, set_node_position, EditError};
use pidc::model::GridPos;

fn grid_pos_of(source: &str, id: &str) -> Option<GridPos> {
    let (_doc, diagram, diags) = pidc::compile::analyze(source, false);
    assert!(!diags.has_errors(), "sample must compile: {:?}", diags.diagnostics);
    diagram.equipment.get(id).and_then(|e| e.pos.clone()).or_else(|| {
        diagram.valves.get(id).and_then(|v| v.pos.clone()).or_else(|| {
            diagram
                .instruments
                .get(id)
                .and_then(|i| i.pos.clone())
                .or_else(|| diagram.junctions.get(id).and_then(|j| j.pos.clone()))
        })
    })
}

/// Assert the edit changed nothing outside the given line.
fn assert_only_range_changed(before: &str, after: &str, changed_line: u32) {
    let b: Vec<&str> = before.lines().collect();
    let a: Vec<&str> = after.lines().collect();
    for (i, (bl, al)) in b.iter().zip(a.iter()).enumerate() {
        if (i + 1) as u32 != changed_line {
            assert_eq!(bl, al, "line {} must be untouched", i + 1);
        }
    }
}

const BLOCK: &str = "\
equipment T1:
  type: tank
  ports:
    out: east
  at: (2,3)

equipment P1: # trailing header comment
  type: pump_centrifugal
  ports:
    in: west

line L1:
  class: process
  from: T1.out
  to: P1.in
";

#[test]
fn replace_block_form() {
    let out = set_node_position(BLOCK, "T1", 7, -4).unwrap();
    assert!(out.contains("at: (7,-4)"));
    assert!(!out.contains("at: (2,3)"));
    assert_only_range_changed(BLOCK, &out, 5);
    assert_eq!(grid_pos_of(&out, "T1").map(|p| (p.x, p.y)), Some((7, -4)));
}

#[test]
fn insert_block_form_after_header() {
    let out = set_node_position(BLOCK, "P1", 5, 3).unwrap();
    let lines: Vec<&str> = out.lines().collect();
    assert_eq!(lines[6], "equipment P1: # trailing header comment");
    assert_eq!(lines[7], "  at: (5,3)");
    assert_eq!(lines[8], "  type: pump_centrifugal");
    assert_eq!(grid_pos_of(&out, "P1").map(|p| (p.x, p.y)), Some((5, 3)));
}

#[test]
fn replace_preserves_trailing_comment() {
    let src = "equipment T1:\n  type: tank\n  at: (2,3) # keep me\n";
    let out = set_node_position(src, "T1", 9, 9).unwrap();
    assert!(out.contains("at: (9,9) # keep me"));
}

#[test]
fn replace_inline_form() {
    let src = "junction J1 at=(4,4)\nequipment T1:\n  type: tank\n";
    let out = set_node_position(src, "J1", 6, 2).unwrap();
    assert!(out.starts_with("junction J1 at=(6,2)\n"));
    assert_eq!(grid_pos_of(&out, "J1").map(|p| (p.x, p.y)), Some((6, 2)));
}

#[test]
fn insert_inline_form_after_last_prop() {
    let src = "equipment T9 type=tank # comment\n";
    let out = set_node_position(src, "T9", 3, 4).unwrap();
    assert!(out.starts_with("equipment T9 type=tank at=(3,4) # comment"), "got: {out}");
}

#[test]
fn bare_header_decl_gets_block_prop() {
    // A header without colon or props parses as an empty block decl,
    // so the new prop lands indented on the next line.
    let src = "junction J1\njunction J2\n";
    let out = set_node_position(src, "J1", 1, 2).unwrap();
    assert!(out.starts_with("junction J1\n  at: (1,2)\njunction J2\n"), "got: {out}");
}

#[test]
fn insert_when_header_is_last_line_without_newline() {
    let src = "equipment T1:\n  type: tank\n\nequipment X9:";
    let out = set_node_position(src, "X9", 1, 1).unwrap();
    assert!(out.ends_with("equipment X9:\n  at: (1,1)\n"), "got: {out}");
}

#[test]
fn malformed_at_is_repaired() {
    let src = "equipment T1:\n  type: tank\n  at: junk\n";
    let out = set_node_position(src, "T1", 2, 2).unwrap();
    assert!(out.contains("at: (2,2)"));
    assert!(!out.contains("junk"));
}

#[test]
fn duplicate_at_edits_the_first() {
    let src = "equipment T1:\n  type: tank\n  at: (1,1)\n  at: (5,5)\n";
    let out = set_node_position(src, "T1", 8, 8).unwrap();
    let lines: Vec<&str> = out.lines().collect();
    assert_eq!(lines[2], "  at: (8,8)");
    assert_eq!(lines[3], "  at: (5,5)");
}

#[test]
fn unknown_id_rejected() {
    assert_eq!(
        set_node_position(BLOCK, "NOPE", 1, 1),
        Err(EditError::UnknownId("NOPE".into()))
    );
}

#[test]
fn line_is_not_positionable() {
    assert!(matches!(
        set_node_position(BLOCK, "L1", 1, 1),
        Err(EditError::NotPositionable { .. })
    ));
}

#[test]
fn framed_group_member_rejected() {
    let src = "\
equipment T1:
  type: tank

equipment T2:
  type: tank

group M1:
  members: T1
  frame: true
  label: \"Module\"
";
    assert_eq!(
        set_node_position(src, "T1", 1, 1),
        Err(EditError::FramedGroupMember { id: "T1".into(), group: "M1".into() })
    );
    // Non-members stay editable.
    assert!(set_node_position(src, "T2", 1, 1).is_ok());
}

#[test]
fn framed_group_itself_is_movable() {
    let src = "\
equipment T1:
  type: tank

group M1:
  members: T1
  frame: true
";
    let out = set_node_position(src, "M1", 7, 3).unwrap();
    let lines: Vec<&str> = out.lines().collect();
    assert_eq!(lines[3], "group M1:");
    assert_eq!(lines[4], "  at: (7,3)");

    // Unframed groups are not positionable.
    let plain = "equipment T1:\n  type: tank\n\ngroup G1:\n  members: T1\n";
    assert!(matches!(
        set_node_position(plain, "G1", 1, 1),
        Err(EditError::NotPositionable { .. })
    ));
}

#[test]
fn edit_survives_unrelated_errors() {
    let src = "equipment T1:\n  type: tank\n  at: (2,3)\n\nline L9:\n  from: A.b\n  to: C.d\n";
    let out = set_node_position(src, "T1", 4, 4).unwrap();
    assert!(out.contains("at: (4,4)"));
}

// ---- Further cases ----

#[test]
fn not_positionable_names_the_kind() {
    let err = set_node_position(BLOCK, "L1", 1, 1).unwrap_err();
    assert_eq!(err, EditError::NotPositionable { id: "L1".into(), kind: "line".into() });
    assert_eq!(err.display(), "`L1` is a line and has no position of its own");
    let plain = "equipment T1:\n  type: tank\n\ngroup G1:\n  members: T1\n";
    assert_eq!(
        set_node_position(plain, "G1", 1, 1),
        Err(EditError::NotPositionable { id: "G1".into(), kind: "group without frame".into() })
    );
}

#[test]
fn edit_error_messages() {
    assert_eq!(EditError::UnknownId("X".into()).display(), "no declaration with id `X`");
    assert_eq!(
        EditError::FramedGroupMember { id: "T1".into(), group: "M1".into() }.display(),
        "`T1` belongs to framed module `M1`; its position is set by the module"
    );
}

#[test]
fn edit_keeps_bytes_outside_the_cut() {
    // Everything before the replaced property and after it stays as it was.
    let src = "equipment T1:\n  type: tank\n  at: (2,3) # é\nnote N1 text=\"ü\"\n";
    let out = set_node_position(src, "T1", -12, 40).unwrap();
    assert_eq!(out, "equipment T1:\n  type: tank\n  at: (-12,40) # é\nnote N1 text=\"ü\"\n");
}

#[test]
fn edit_appends_newline_when_missing() {
    let src = "junction J9:";
    assert_eq!(set_node_position(src, "J9", 0, 0).unwrap(), "junction J9:\n  at: (0,0)\n");
    let src2 = "junction J9:\n";
    assert_eq!(set_node_position(src2, "J9", 0, 0).unwrap(), "junction J9:\n  at: (0,0)\n");
}

#[test]
fn inline_without_props_appends_after_id() {
    let src = "junction J1 # tee\n";
    // A bare inline header with only a comment parses as a block declaration.
    let out = set_node_position(src, "J1", 2, 5).unwrap();
    assert_eq!(out, "junction J1 # tee\n  at: (2,5)\n");
}

#[test]
fn edit_applicability() {
    assert!(edit_is_applicable(BLOCK));
    // An `at=` without a value is rewritten in place, after a comment line
    // of multi-byte characters.
    let src = "# ééééééé\nequipment T9 at=\n";
    assert!(edit_is_applicable(src));
    assert_eq!(
        set_node_position(src, "T9", 1, 2),
        Ok("# ééééééé\nequipment T9 at=(1,2)\n".to_string())
    );
}

#[test]
fn first_declaration_with_the_id_is_edited() {
    let src = "junction J1 at=(1,1)\njunction J1 at=(2,2)\n";
    let out = set_node_position(src, "J1", 9, 9).unwrap();
    assert_eq!(out, "junction J1 at=(9,9)\njunction J1 at=(2,2)\n");
}

#[test]
fn empty_inline_at_is_rewritten_in_place() {
    let src = "equipment T1:\n  type: tank\njunction J1 at=\n";
    assert_eq!(
        set_node_position(src, "J1", 1, 2),
        Ok("equipment T1:\n  type: tank\njunction J1 at=(1,2)\n".to_string())
    );
    let once = set_node_position(src, "J1", 5, 6).unwrap();
    let twice = set_node_position(&set_node_position(src, "J1", 1, 2).unwrap(), "J1", 5, 6).unwrap();
    assert_eq!(once, twice);
    assert_eq!(grid_pos_of(&once, "J1"), Some(GridPos { x: 5, y: 6 }));
}

#[test]
fn sources_with_non_ascii_identifiers_are_edited() {
    let src = "equipment Pé1 type=pump\njunction J1 at=(0,0)\nline L1 class=process from=J1 to=J1\n";
    assert!(edit_is_applicable(src));
    assert_eq!(
        set_node_position(src, "J1", 3, 4),
        Ok("equipment Pé1 type=pump\njunction J1 at=(3,4)\nline L1 class=process from=J1 to=J1\n".to_string())
    );
    assert_eq!(
        set_node_position(src, "L1", 3, 4),
        Err(EditError::NotPositionable { id: "L1".to_string(), kind: "line".to_string() })
    );
}
