//! Symbol keys: which drawn symbol each equipment type, valve type and
//! instrument location uses. Several type aliases share one key.

use vstd::prelude::*;
use crate::text::str_eq;

verus! {

/// The symbol key of an equipment type.
pub open spec fn equipment_key_of(t: Seq<char>) -> Seq<char> {
    if t == "pump"@ || t == "pump_centrifugal"@ {
        "pump"@
    } else if t == "pump_positive_displacement"@ {
        "pump_pd"@
    } else if t == "heat_exchanger"@ || t == "heat_exchanger_shell_tube"@ {
        "heat_exchanger"@
    } else if t == "tank"@ || t == "vessel"@ {
        "vessel"@
    } else if t == "separator"@ {
        "separator"@
    } else if t == "separator_3phase"@ {
        "separator_3phase"@
    } else if t == "reactor_cstr"@ || t == "reactor_batch"@ {
        "reactor_cstr"@
    } else if t == "reactor_pfr"@ {
        "reactor_pfr"@
    } else if t == "compressor"@ {
        "compressor"@
    } else if t == "blower"@ {
        "blower"@
    } else if t == "mixer"@ {
        "mixer"@
    } else if t == "distillation_column"@ {
        "column"@
    } else if t == "connector"@ {
        "connector"@
    } else if t == "heat_pad"@ {
        "heat_pad"@
    } else if t == "vacuum_pump"@ {
        "vacuum_pump"@
    } else if t == "canister"@ {
        "canister"@
    } else if t == "motor"@ {
        "motor"@
    } else if t == "thermostat"@ {
        "thermostat"@
    } else {
        "equipment_default"@
    }
}

/// Returns the canonical symbol key for an equipment type.
/// Multiple type aliases that share a symbol return the same key.
pub fn equipment_symbol_key(equip_type: &str) -> (r: &'static str)
    ensures
        r@ == equipment_key_of(equip_type@),
{
    let t = equip_type;
    if str_eq(t, "pump") || str_eq(t, "pump_centrifugal") {
        "pump"
    } else if str_eq(t, "pump_positive_displacement") {
        "pump_pd"
    } else if str_eq(t, "heat_exchanger") || str_eq(t, "heat_exchanger_shell_tube") {
        "heat_exchanger"
    } else if str_eq(t, "tank") || str_eq(t, "vessel") {
        "vessel"
    } else if str_eq(t, "separator") {
        "separator"
    } else if str_eq(t, "separator_3phase") {
        "separator_3phase"
    } else if str_eq(t, "reactor_cstr") || str_eq(t, "reactor_batch") {
        "reactor_cstr"
    } else if str_eq(t, "reactor_pfr") {
        "reactor_pfr"
    } else if str_eq(t, "compressor") {
        "compressor"
    } else if str_eq(t, "blower") {
        "blower"
    } else if str_eq(t, "mixer") {
        "mixer"
    } else if str_eq(t, "distillation_column") {
        "column"
    } else if str_eq(t, "connector") {
        "connector"
    } else if str_eq(t, "heat_pad") {
        "heat_pad"
    } else if str_eq(t, "vacuum_pump") {
        "vacuum_pump"
    } else if str_eq(t, "canister") {
        "canister"
    } else if str_eq(t, "motor") {
        "motor"
    } else if str_eq(t, "thermostat") {
        "thermostat"
    } else {
        "equipment_default"
    }
}

/// The symbol key of a valve type with an optional actuator style.
pub open spec fn valve_key_of(t: Seq<char>, actuator: Option<Seq<char>>) -> Seq<char> {
    if actuator == Some("solenoid"@) {
        "valve_solenoid"@
    } else if t == "control_valve"@ {
        if actuator == Some("diaphragm"@) {
            "control_valve_diaphragm"@
        } else {
            "control_valve"@
        }
    } else if t == "check_valve"@ {
        "check_valve"@
    } else if t == "relief_valve"@ || t == "safety_valve"@ {
        "relief_valve"@
    } else if t == "globe"@ {
        "valve_globe"@
    } else if t == "needle"@ {
        "valve_needle"@
    } else if t == "three_way"@ {
        "valve_three_way"@
    } else if t == "pressure_reducer"@ {
        "valve_pcv"@
    } else if t == "bursting_disc"@ {
        "bursting_disc"@
    } else {
        "valve_manual"@
    }
}

/// An optional string slice, by its characters.
pub open spec fn ostr_slice(o: Option<&str>) -> Option<Seq<char>> {
    match o {
        Some(s) => Some(s@),
        None => None,
    }
}

/// Whether an optional string slice is `Some(want)`.
fn is_some_str(o: Option<&str>, want: &str) -> (r: bool)
    ensures
        r == (ostr_slice(o) == Some(want@)),
{
    match o {
        Some(s) => str_eq(s, want),
        None => false,
    }
}

/// Returns the canonical symbol key for a valve type + actuator style.
pub fn valve_symbol_key(valve_type: &str, actuator: Option<&str>) -> (r: &'static str)
    ensures
        r@ == valve_key_of(valve_type@, ostr_slice(actuator)),
{
    if is_some_str(actuator, "solenoid") {
        return "valve_solenoid";
    }
    let t = valve_type;
    if str_eq(t, "control_valve") {
        if is_some_str(actuator, "diaphragm") {
            "control_valve_diaphragm"
        } else {
            "control_valve"
        }
    } else if str_eq(t, "check_valve") {
        "check_valve"
    } else if str_eq(t, "relief_valve") || str_eq(t, "safety_valve") {
        "relief_valve"
    } else if str_eq(t, "globe") {
        "valve_globe"
    } else if str_eq(t, "needle") {
        "valve_needle"
    } else if str_eq(t, "three_way") {
        "valve_three_way"
    } else if str_eq(t, "pressure_reducer") {
        "valve_pcv"
    } else if str_eq(t, "bursting_disc") {
        "bursting_disc"
    } else {
        "valve_manual"
    }
}

/// The symbol key of an instrument's mounting location; no location means
/// a field instrument.
pub open spec fn instrument_key_of(location: Option<Seq<char>>) -> Seq<char> {
    let l = match location {
        Some(s) => s,
        None => "field"@,
    };
    if l == "panel"@ {
        "instr_panel"@
    } else if l == "control_room"@ {
        "instr_control_room"@
    } else if l == "shared"@ {
        "instr_shared"@
    } else {
        "instr_field"@
    }
}

/// Returns the canonical symbol key for an instrument, determined by
/// mounting location: the bubble style follows the location, not the
/// instrument type.
pub fn instrument_symbol_key(location: Option<&str>) -> (r: &'static str)
    ensures
        r@ == instrument_key_of(ostr_slice(location)),
{
    let l = match location {
        Some(s) => s,
        None => "field",
    };
    if str_eq(l, "panel") {
        "instr_panel"
    } else if str_eq(l, "control_room") {
        "instr_control_room"
    } else if str_eq(l, "shared") {
        "instr_shared"
    } else {
        "instr_field"
    }
}

// ---- Laws of symbol choice ----

/// A solenoid actuator gives the solenoid valve symbol whatever the valve
/// type; any other actuator, or none, changes the symbol of a control valve
/// only, so every other valve type keeps the symbol of its type.
pub proof fn lemma_actuator_shapes_only_control_valves(t: Seq<char>, a: Seq<char>)
    ensures
        valve_key_of(t, Some("solenoid"@)) == "valve_solenoid"@,
        a != "solenoid"@ && t != "control_valve"@ ==> valve_key_of(t, Some(a)) == valve_key_of(t, None),
{
    reveal_strlit("solenoid");
    reveal_strlit("diaphragm");
    assert(Some(a) != Some("solenoid"@) || a == "solenoid"@);
}

/// The bubble of an instrument follows its location alone: an instrument
/// without a location, or with a location other than `panel`,
/// `control_room` and `shared`, is drawn as a field instrument.
pub proof fn lemma_unknown_locations_are_field(l: Seq<char>)
    ensures
        instrument_key_of(None) == "instr_field"@,
        l != "panel"@ && l != "control_room"@ && l != "shared"@ ==> instrument_key_of(Some(l)) == "instr_field"@,
        instrument_key_of(Some("field"@)) == instrument_key_of(None),
{
    reveal_strlit("field");
    reveal_strlit("panel");
    reveal_strlit("control_room");
    reveal_strlit("shared");
    assert("field"@[0] != "panel"@[0]);
    assert("field"@[0] != "shared"@[0]);
    assert("field"@.len() != "control_room"@.len());
}

} // verus!
