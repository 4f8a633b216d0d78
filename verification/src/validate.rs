//! Validation of a normalized diagram: controlled vocabularies and
//! references between objects.

use vstd::prelude::*;
use crate::ast::join;
use crate::diag::{DiagEngine, Diagnostic, DiagV, Severity, dg};
use crate::model::{
    Diagram, DiagramV, EquipmentV, IdMap, InstrumentV, LineV, ObjRef, PortV, RefV, SignalV, ValveV,
    entries_view, id_in, ports_of, ports_view,
};
use crate::text::{contains_str, push_str, str_eq, string_of, strs_view};

verus! {

// ---- Controlled vocabularies ----

pub open spec fn equipment_type_names() -> Seq<Seq<char>> {
    seq![
        "pump"@, "pump_centrifugal"@, "pump_positive_displacement"@, "heat_exchanger"@,
        "heat_exchanger_shell_tube"@, "tank"@, "vessel"@, "separator"@, "separator_3phase"@,
        "reactor_cstr"@, "reactor_batch"@, "reactor_pfr"@, "compressor"@, "blower"@, "mixer"@,
        "distillation_column"@, "connector"@, "heat_pad"@,
    ]
}

pub open spec fn valve_type_names() -> Seq<Seq<char>> {
    seq![
        "gate"@, "globe"@, "ball"@, "butterfly"@, "plug"@, "control_valve"@, "check_valve"@,
        "relief_valve"@, "safety_valve"@,
    ]
}

pub open spec fn instrument_type_names() -> Seq<Seq<char>> {
    seq![
        "temperature_indicator"@, "pressure_indicator"@, "flow_indicator"@, "level_indicator"@,
        "temperature_transmitter"@, "pressure_transmitter"@, "flow_transmitter"@,
        "level_transmitter"@, "temperature_controller"@, "pressure_controller"@,
        "flow_controller"@, "level_controller"@, "alarm"@, "relay"@, "transducer"@,
        "level_gauge"@,
    ]
}

pub open spec fn line_class_names() -> Seq<Seq<char>> {
    seq!["process"@, "utility"@, "drain"@, "vent"@]
}

pub open spec fn signal_type_names() -> Seq<Seq<char>> {
    seq!["electrical"@, "pneumatic"@, "hydraulic"@, "digital"@]
}

pub open spec fn location_names() -> Seq<Seq<char>> {
    seq!["field"@, "panel"@, "control_room"@, "shared"@]
}

pub fn equipment_types() -> (r: Vec<&'static str>)
    ensures
        strs_view(r@) == equipment_type_names(),
{
    let r = vec![
        "pump", "pump_centrifugal", "pump_positive_displacement", "heat_exchanger",
        "heat_exchanger_shell_tube", "tank", "vessel", "separator", "separator_3phase",
        "reactor_cstr", "reactor_batch", "reactor_pfr", "compressor", "blower", "mixer",
        "distillation_column", "connector", "heat_pad",
    ];
    assert(strs_view(r@) =~= equipment_type_names());
    r
}

pub fn valve_types() -> (r: Vec<&'static str>)
    ensures
        strs_view(r@) == valve_type_names(),
{
    let r = vec![
        "gate", "globe", "ball", "butterfly", "plug", "control_valve", "check_valve",
        "relief_valve", "safety_valve",
    ];
    assert(strs_view(r@) =~= valve_type_names());
    r
}

pub fn instrument_types() -> (r: Vec<&'static str>)
    ensures
        strs_view(r@) == instrument_type_names(),
{
    let r = vec![
        "temperature_indicator", "pressure_indicator", "flow_indicator", "level_indicator",
        "temperature_transmitter", "pressure_transmitter", "flow_transmitter",
        "level_transmitter", "temperature_controller", "pressure_controller",
        "flow_controller", "level_controller", "alarm", "relay", "transducer", "level_gauge",
    ];
    assert(strs_view(r@) =~= instrument_type_names());
    r
}

pub fn line_classes() -> (r: Vec<&'static str>)
    ensures
        strs_view(r@) == line_class_names(),
{
    let r = vec!["process", "utility", "drain", "vent"];
    assert(strs_view(r@) =~= line_class_names());
    r
}

pub fn signal_types() -> (r: Vec<&'static str>)
    ensures
        strs_view(r@) == signal_type_names(),
{
    let r = vec!["electrical", "pneumatic", "hydraulic", "digital"];
    assert(strs_view(r@) =~= signal_type_names());
    r
}

pub fn locations() -> (r: Vec<&'static str>)
    ensures
        strs_view(r@) == location_names(),
{
    let r = vec!["field", "panel", "control_room", "shared"];
    assert(strs_view(r@) =~= location_names());
    r
}

/// Appends the items of `items` separated by `sep`.
fn push_joined_strs(out: &mut String, items: &Vec<&'static str>, sep: &str)
    ensures
        final(out)@ == old(out)@ + join(strs_view(items@), sep@),
{
    let ghost start = out@;
    let mut i: usize = 0;
    while i < items.len()
        invariant
            i <= items@.len(),
            out@ == start + join(strs_view(items@.subrange(0, i as int)), sep@),
        decreases items@.len() - i,
    {
        if i > 0 {
            push_str(out, sep);
        }
        push_str(out, items[i]);
        proof {
            let pre = strs_view(items@.subrange(0, i as int));
            let post = strs_view(items@.subrange(0, i + 1));
            assert(post.drop_last() =~= pre);
            if i == 0 {
                assert(pre =~= Seq::<Seq<char>>::empty());
            }
            assert(out@ =~= start + join(post, sep@));
        }
        i = i + 1;
    }
    assert(items@.subrange(0, i as int) =~= items@);
}

/// The warning for a value outside its vocabulary: `what` names the kind
/// of value, `plural` the kind of the listed alternatives.
pub open spec fn vocab_diags(
    what: Seq<char>,
    value: Seq<char>,
    id: Seq<char>,
    plural: Seq<char>,
    known: Seq<Seq<char>>,
) -> Seq<DiagV> {
    if known.contains(value) {
        Seq::empty()
    } else {
        seq![
            dg(
                Severity::Warning,
                "unknown "@ + what + " `"@ + value + "` for `"@ + id + "`; known "@ + plural + ": "@
                    + join(known, ", "@),
                None,
            ),
        ]
    }
}

/// Warns when `value` is not one of `known`.
fn check_vocab(
    what: &str,
    value: &str,
    id: &str,
    plural: &str,
    known: &Vec<&'static str>,
    diags: &mut DiagEngine,
)
    ensures
        final(diags)@ == old(diags)@ + vocab_diags(what@, value@, id@, plural@, strs_view(known@)),
        final(diags).strict == old(diags).strict,
{
    if !contains_str(known, value) {
        let mut m = string_of("unknown ");
        push_str(&mut m, what);
        push_str(&mut m, " `");
        push_str(&mut m, value);
        push_str(&mut m, "` for `");
        push_str(&mut m, id);
        push_str(&mut m, "`; known ");
        push_str(&mut m, plural);
        push_str(&mut m, ": ");
        push_joined_strs(&mut m, known, ", ");
        diags.emit(Diagnostic::warning(m));
        assert(diags@ =~= old(diags)@ + vocab_diags(what@, value@, id@, plural@, strs_view(known@)));
    } else {
        assert(diags@ =~= old(diags)@ + Seq::<DiagV>::empty());
    }
}

// ---- References ----

/// The names of a sequence of ports.
pub open spec fn port_names(ps: Seq<PortV>) -> Seq<Seq<char>> {
    ps.map_values(|p: PortV| p.name)
}

/// The errors for a reference made by property `prop` of `context`: an
/// unknown id, or a port that the target does not declare (a target that
/// declares no ports accepts any port).
pub open spec fn ref_diags(g: DiagramV, r: RefV, context: Seq<char>, prop: Seq<char>) -> Seq<DiagV> {
    if !id_in(g, r.id) {
        seq![
            dg(
                Severity::Error,
                context + " property `"@ + prop + "` references unknown ID `"@ + r.id + "`"@,
                None,
            ),
        ]
    } else {
        match r.port {
            Some(pn) => match ports_of(g, r.id) {
                Some(ps) => if ps.len() > 0 && !port_names(ps).contains(pn) {
                    seq![
                        dg(
                            Severity::Error,
                            "reference `"@ + r.id + "."@ + pn + "` points to missing port `"@ + pn
                                + "`; declared ports: "@ + join(port_names(ps), ", "@),
                            None,
                        ),
                    ]
                } else {
                    Seq::empty()
                },
                None => Seq::empty(),
            },
            None => Seq::empty(),
        }
    }
}

/// Checks that a reference names an existing object and, where the target
/// declares ports, one of its ports.
fn validate_ref(
    diagram: &Diagram,
    obj_ref: &ObjRef,
    context: &str,
    prop: &str,
    diags: &mut DiagEngine,
)
    requires
        diagram.wf(),
    ensures
        final(diags)@ == old(diags)@ + ref_diags(diagram@, obj_ref@, context@, prop@),
        final(diags).strict == old(diags).strict,
{
    if !diagram.id_exists(obj_ref.id.as_str()) {
        let mut m = string_of(context);
        push_str(&mut m, " property `");
        push_str(&mut m, prop);
        push_str(&mut m, "` references unknown ID `");
        push_str(&mut m, obj_ref.id.as_str());
        push_str(&mut m, "`");
        diags.emit(Diagnostic::error(m));
        return;
    }
    if let Some(port_name) = &obj_ref.port {
        if let Some(ports) = diagram.get_ports(obj_ref.id.as_str()) {
            let ghost pv = ports_view(ports@);
            let mut found = false;
            let mut i: usize = 0;
            while i < ports.len()
                invariant
                    i <= ports@.len(),
                    pv == ports_view(ports@),
                    found == exists|j: int| 0 <= j < i && ports@[j].name@ == port_name@,
                decreases ports@.len() - i,
            {
                if str_eq(ports[i].name.as_str(), port_name.as_str()) {
                    found = true;
                }
                i = i + 1;
            }
            proof {
                if found {
                    let j = choose|j: int| 0 <= j < ports@.len() && ports@[j].name@ == port_name@;
                    assert(port_names(pv)[j] == port_name@);
                }
                if port_names(pv).contains(port_name@) {
                    let j = choose|j: int| 0 <= j < port_names(pv).len() && port_names(pv)[j] == port_name@;
                    assert(ports@[j].name@ == port_name@);
                }
            }
            if ports.len() > 0 && !found {
                let mut m = string_of("reference `");
                push_str(&mut m, obj_ref.id.as_str());
                push_str(&mut m, ".");
                push_str(&mut m, port_name.as_str());
                push_str(&mut m, "` points to missing port `");
                push_str(&mut m, port_name.as_str());
                push_str(&mut m, "`; declared ports: ");
                let ghost before = m@;
                let mut k: usize = 0;
                while k < ports.len()
                    invariant
                        k <= ports@.len(),
                        pv == ports_view(ports@),
                        m@ == before + join(port_names(pv.subrange(0, k as int)), ", "@),
                    decreases ports@.len() - k,
                {
                    if k > 0 {
                        push_str(&mut m, ", ");
                    }
                    push_str(&mut m, ports[k].name.as_str());
                    proof {
                        let pre = port_names(pv.subrange(0, k as int));
                        let post = port_names(pv.subrange(0, k + 1));
                        assert(post.drop_last() =~= pre);
                        if k == 0 {
                            assert(pre =~= Seq::<Seq<char>>::empty());
                        }
                        assert(m@ =~= before + join(post, ", "@));
                    }
                    k = k + 1;
                }
                assert(pv.subrange(0, k as int) =~= pv);
                diags.emit(Diagnostic::error(m));
                assert(diags@ =~= old(diags)@ + ref_diags(diagram@, obj_ref@, context@, prop@));
                return;
            }
        }
    }
    assert(diags@ =~= old(diags)@ + ref_diags(diagram@, obj_ref@, context@, prop@));
}

// ---- Per-kind checks ----

/// The diagnostics of a check applied to each value of a sequence of
/// entries, in order.
pub open spec fn each_diags<T>(s: Seq<(Seq<char>, T)>, f: spec_fn(T) -> Seq<DiagV>) -> Seq<DiagV>
    decreases s.len(),
{
    if s.len() == 0 {
        Seq::empty()
    } else {
        each_diags(s.drop_last(), f) + f(s.last().1)
    }
}

/// `` kind `id` ``, naming an object in messages.
pub open spec fn ctx(kind: Seq<char>, id: Seq<char>) -> Seq<char> {
    kind + " `"@ + id + "`"@
}

fn context(kind: &str, id: &str) -> (r: String)
    ensures
        r@ == ctx(kind@, id@),
{
    let mut m = string_of(kind);
    push_str(&mut m, " `");
    push_str(&mut m, id);
    push_str(&mut m, "`");
    m
}

/// The diagnostics of an optional reference.
pub open spec fn opt_ref_diags(g: DiagramV, r: Option<RefV>, context: Seq<char>, prop: Seq<char>) -> Seq<DiagV> {
    match r {
        Some(a) => ref_diags(g, a, context, prop),
        None => Seq::empty(),
    }
}

/// The check of every equipment, as a function.
pub open spec fn equipment_checks(g: DiagramV) -> spec_fn(EquipmentV) -> Seq<DiagV> {
    |x: EquipmentV| equipment_check(g, x)
}

pub open spec fn equipment_check(g: DiagramV, x: EquipmentV) -> Seq<DiagV> {
    vocab_diags("equipment type"@, x.equip_type, x.id, "types"@, equipment_type_names())
        + opt_ref_diags(g, x.attach, ctx("equipment"@, x.id), "attach"@)
}

fn validate_equipment(diagram: &Diagram, diags: &mut DiagEngine)
    requires
        diagram.wf(),
    ensures
        final(diags)@ == old(diags)@ + each_diags(diagram@.equipment, equipment_checks(diagram@)),
        final(diags).strict == old(diags).strict,
{
    let ghost g = diagram@;
    let ghost f = equipment_checks(g);
    let ghost d0 = diags@;
    let vals = diagram.equipment.values();
    proof {
        diagram.equipment.lemma_wf();
        assert(g.equipment.subrange(0, 0) =~= Seq::<(Seq<char>, EquipmentV)>::empty());
    }
    let mut i: usize = 0;
    while i < vals.len()
        invariant
            diagram.wf(),
            g == diagram@,
            i <= vals@.len(),
            vals@.len() == g.equipment.len(),
            forall|j: int| 0 <= j < vals@.len() ==> #[trigger] g.equipment[j].1 == vals@[j]@,
            f == equipment_checks(g),
            diags@ == d0 + each_diags(g.equipment.subrange(0, i as int), f),
            diags.strict == old(diags).strict,
        decreases vals@.len() - i,
    {
        let x = &vals[i];
        let ghost before = diags@;
        let known = equipment_types();
        check_vocab("equipment type", x.equip_type.as_str(), x.id.as_str(), "types", &known, diags);
        if let Some(attach) = &x.attach {
            let c = context("equipment", x.id.as_str());
            validate_ref(diagram, attach, c.as_str(), "attach", diags);
        }
        proof {
            assert(diags@ =~= before + equipment_check(g, x@));
            assert(f(x@) == equipment_check(g, x@));
            let post = g.equipment.subrange(0, i + 1);
            assert(post.drop_last() =~= g.equipment.subrange(0, i as int));
            assert(post.last().1 == x@);
            assert(diags@ =~= d0 + each_diags(post, f));
        }
        i = i + 1;
    }
    assert(g.equipment.subrange(0, i as int) =~= g.equipment);
}

/// The check of every valve, as a function.
pub open spec fn valve_checks(g: DiagramV) -> spec_fn(ValveV) -> Seq<DiagV> {
    |x: ValveV| valve_check(g, x)
}

pub open spec fn valve_check(g: DiagramV, x: ValveV) -> Seq<DiagV> {
    vocab_diags("valve type"@, x.valve_type, x.id, "types"@, valve_type_names())
}

fn validate_valves(diagram: &Diagram, diags: &mut DiagEngine)
    requires
        diagram.wf(),
    ensures
        final(diags)@ == old(diags)@ + each_diags(diagram@.valves, valve_checks(diagram@)),
        final(diags).strict == old(diags).strict,
{
    let ghost g = diagram@;
    let ghost f = valve_checks(g);
    let ghost d0 = diags@;
    let vals = diagram.valves.values();
    proof {
        diagram.valves.lemma_wf();
        assert(g.valves.subrange(0, 0) =~= Seq::<(Seq<char>, ValveV)>::empty());
    }
    let mut i: usize = 0;
    while i < vals.len()
        invariant
            diagram.wf(),
            g == diagram@,
            i <= vals@.len(),
            vals@.len() == g.valves.len(),
            forall|j: int| 0 <= j < vals@.len() ==> #[trigger] g.valves[j].1 == vals@[j]@,
            f == valve_checks(g),
            diags@ == d0 + each_diags(g.valves.subrange(0, i as int), f),
            diags.strict == old(diags).strict,
        decreases vals@.len() - i,
    {
        let x = &vals[i];
        let ghost before = diags@;
        let known = valve_types();
        check_vocab("valve type", x.valve_type.as_str(), x.id.as_str(), "types", &known, diags);
        proof {
            assert(diags@ =~= before + valve_check(g, x@));
            assert(f(x@) == valve_check(g, x@));
            let post = g.valves.subrange(0, i + 1);
            assert(post.drop_last() =~= g.valves.subrange(0, i as int));
            assert(post.last().1 == x@);
            assert(diags@ =~= d0 + each_diags(post, f));
        }
        i = i + 1;
    }
    assert(g.valves.subrange(0, i as int) =~= g.valves);
}

/// The check of every line, as a function.
pub open spec fn line_checks(g: DiagramV) -> spec_fn(LineV) -> Seq<DiagV> {
    |x: LineV| line_check(g, x)
}

pub open spec fn line_check(g: DiagramV, x: LineV) -> Seq<DiagV> {
    vocab_diags("line class"@, x.class, x.id, "classes"@, line_class_names())
        + ref_diags(g, x.from, ctx("line"@, x.id), "from"@)
        + opt_ref_diags(g, x.to, ctx("line"@, x.id), "to"@)
}

fn validate_lines(diagram: &Diagram, diags: &mut DiagEngine)
    requires
        diagram.wf(),
    ensures
        final(diags)@ == old(diags)@ + each_diags(diagram@.lines, line_checks(diagram@)),
        final(diags).strict == old(diags).strict,
{
    let ghost g = diagram@;
    let ghost f = line_checks(g);
    let ghost d0 = diags@;
    let vals = diagram.lines.values();
    proof {
        diagram.lines.lemma_wf();
        assert(g.lines.subrange(0, 0) =~= Seq::<(Seq<char>, LineV)>::empty());
    }
    let mut i: usize = 0;
    while i < vals.len()
        invariant
            diagram.wf(),
            g == diagram@,
            i <= vals@.len(),
            vals@.len() == g.lines.len(),
            forall|j: int| 0 <= j < vals@.len() ==> #[trigger] g.lines[j].1 == vals@[j]@,
            f == line_checks(g),
            diags@ == d0 + each_diags(g.lines.subrange(0, i as int), f),
            diags.strict == old(diags).strict,
        decreases vals@.len() - i,
    {
        let x = &vals[i];
        let ghost before = diags@;
        let known = line_classes();
        check_vocab("line class", x.class.as_str(), x.id.as_str(), "classes", &known, diags);
        let c = context("line", x.id.as_str());
        validate_ref(diagram, &x.from, c.as_str(), "from", diags);
        if let Some(to) = &x.to {
            validate_ref(diagram, to, c.as_str(), "to", diags);
        }
        proof {
            assert(diags@ =~= before + line_check(g, x@));
            assert(f(x@) == line_check(g, x@));
            let post = g.lines.subrange(0, i + 1);
            assert(post.drop_last() =~= g.lines.subrange(0, i as int));
            assert(post.last().1 == x@);
            assert(diags@ =~= d0 + each_diags(post, f));
        }
        i = i + 1;
    }
    assert(g.lines.subrange(0, i as int) =~= g.lines);
}

/// The check of every instrument, as a function.
pub open spec fn instrument_checks(g: DiagramV) -> spec_fn(InstrumentV) -> Seq<DiagV> {
    |x: InstrumentV| instrument_check(g, x)
}

pub open spec fn instrument_check(g: DiagramV, x: InstrumentV) -> Seq<DiagV> {
    vocab_diags("instrument type"@, x.instr_type, x.id, "types"@, instrument_type_names())
        + match x.location {
        Some(loc) => vocab_diags("location"@, loc, x.id, "locations"@, location_names()),
        None => Seq::empty(),
    } + opt_ref_diags(g, x.attach, ctx("instrument"@, x.id), "attach"@)
}

fn validate_instruments(diagram: &Diagram, diags: &mut DiagEngine)
    requires
        diagram.wf(),
    ensures
        final(diags)@ == old(diags)@ + each_diags(diagram@.instruments, instrument_checks(diagram@)),
        final(diags).strict == old(diags).strict,
{
    let ghost g = diagram@;
    let ghost f = instrument_checks(g);
    let ghost d0 = diags@;
    let vals = diagram.instruments.values();
    proof {
        diagram.instruments.lemma_wf();
        assert(g.instruments.subrange(0, 0) =~= Seq::<(Seq<char>, InstrumentV)>::empty());
    }
    let mut i: usize = 0;
    while i < vals.len()
        invariant
            diagram.wf(),
            g == diagram@,
            i <= vals@.len(),
            vals@.len() == g.instruments.len(),
            forall|j: int| 0 <= j < vals@.len() ==> #[trigger] g.instruments[j].1 == vals@[j]@,
            f == instrument_checks(g),
            diags@ == d0 + each_diags(g.instruments.subrange(0, i as int), f),
            diags.strict == old(diags).strict,
        decreases vals@.len() - i,
    {
        let x = &vals[i];
        let ghost before = diags@;
        let known = instrument_types();
        check_vocab("instrument type", x.instr_type.as_str(), x.id.as_str(), "types", &known, diags);
        if let Some(loc) = &x.location {
            let places = locations();
            check_vocab("location", loc.as_str(), x.id.as_str(), "locations", &places, diags);
        }
        if let Some(attach) = &x.attach {
            let c = context("instrument", x.id.as_str());
            validate_ref(diagram, attach, c.as_str(), "attach", diags);
        }
        proof {
            assert(diags@ =~= before + instrument_check(g, x@));
            assert(f(x@) == instrument_check(g, x@));
            let post = g.instruments.subrange(0, i + 1);
            assert(post.drop_last() =~= g.instruments.subrange(0, i as int));
            assert(post.last().1 == x@);
            assert(diags@ =~= d0 + each_diags(post, f));
        }
        i = i + 1;
    }
    assert(g.instruments.subrange(0, i as int) =~= g.instruments);
}

/// The check of every signal, as a function.
pub open spec fn signal_checks(g: DiagramV) -> spec_fn(SignalV) -> Seq<DiagV> {
    |x: SignalV| signal_check(g, x)
}

pub open spec fn signal_check(g: DiagramV, x: SignalV) -> Seq<DiagV> {
    vocab_diags("signal type"@, x.sig_type, x.id, "types"@, signal_type_names())
        + ref_diags(g, x.from, ctx("signal"@, x.id), "from"@)
        + ref_diags(g, x.to, ctx("signal"@, x.id), "to"@)
}

fn validate_signals(diagram: &Diagram, diags: &mut DiagEngine)
    requires
        diagram.wf(),
    ensures
        final(diags)@ == old(diags)@ + each_diags(diagram@.signals, signal_checks(diagram@)),
        final(diags).strict == old(diags).strict,
{
    let ghost g = diagram@;
    let ghost f = signal_checks(g);
    let ghost d0 = diags@;
    let vals = diagram.signals.values();
    proof {
        diagram.signals.lemma_wf();
        assert(g.signals.subrange(0, 0) =~= Seq::<(Seq<char>, SignalV)>::empty());
    }
    let mut i: usize = 0;
    while i < vals.len()
        invariant
            diagram.wf(),
            g == diagram@,
            i <= vals@.len(),
            vals@.len() == g.signals.len(),
            forall|j: int| 0 <= j < vals@.len() ==> #[trigger] g.signals[j].1 == vals@[j]@,
            f == signal_checks(g),
            diags@ == d0 + each_diags(g.signals.subrange(0, i as int), f),
            diags.strict == old(diags).strict,
        decreases vals@.len() - i,
    {
        let x = &vals[i];
        let ghost before = diags@;
        let known = signal_types();
        check_vocab("signal type", x.sig_type.as_str(), x.id.as_str(), "types", &known, diags);
        let c = context("signal", x.id.as_str());
        validate_ref(diagram, &x.from, c.as_str(), "from", diags);
        validate_ref(diagram, &x.to, c.as_str(), "to", diags);
        proof {
            assert(diags@ =~= before + signal_check(g, x@));
            assert(f(x@) == signal_check(g, x@));
            let post = g.signals.subrange(0, i + 1);
            assert(post.drop_last() =~= g.signals.subrange(0, i as int));
            assert(post.last().1 == x@);
            assert(diags@ =~= d0 + each_diags(post, f));
        }
        i = i + 1;
    }
    assert(g.signals.subrange(0, i as int) =~= g.signals);
}

/// Every diagnostic that validation reports on a diagram, in order:
/// equipment, valves, lines, instruments, signals.
pub open spec fn validation_diags(g: DiagramV) -> Seq<DiagV> {
    each_diags(g.equipment, equipment_checks(g))
        + each_diags(g.valves, valve_checks(g))
        + each_diags(g.lines, line_checks(g))
        + each_diags(g.instruments, instrument_checks(g))
        + each_diags(g.signals, signal_checks(g))
}

/// Checks vocabularies and references of the whole diagram.
pub fn validate(diagram: &Diagram, diags: &mut DiagEngine)
    requires
        diagram.wf(),
    ensures
        final(diags)@ == old(diags)@ + validation_diags(diagram@),
        final(diags).strict == old(diags).strict,
{
    validate_equipment(diagram, diags);
    validate_valves(diagram, diags);
    validate_lines(diagram, diags);
    validate_instruments(diagram, diags);
    validate_signals(diagram, diags);
    assert(diags@ =~= old(diags)@ + validation_diags(diagram@));
}

// ---- Laws of validation ----

/// Whether some diagnostic is an error.
pub open spec fn has_error(s: Seq<DiagV>) -> bool {
    exists|i: int| 0 <= i < s.len() && (#[trigger] s[i]).severity == Severity::Error
}

/// A reference resolves when its id names an object and its port, if any,
/// is declared by that object (or the object declares no ports at all).
pub open spec fn resolves(g: DiagramV, r: RefV) -> bool {
    &&& id_in(g, r.id)
    &&& match r.port {
        Some(pn) => match ports_of(g, r.id) {
            Some(ps) => ps.len() == 0 || port_names(ps).contains(pn),
            None => true,
        },
        None => true,
    }
}

pub open spec fn opt_resolves(g: DiagramV, r: Option<RefV>) -> bool {
    match r {
        Some(a) => resolves(g, a),
        None => true,
    }
}

/// Every reference of the diagram resolves: attachments of equipment and
/// instruments, and both ends of lines and signals.
pub open spec fn all_refs_resolve(g: DiagramV) -> bool {
    &&& forall|i: int| 0 <= i < g.equipment.len() ==> opt_resolves(g, (#[trigger] g.equipment[i]).1.attach)
    &&& forall|i: int|
        0 <= i < g.lines.len() ==> resolves(g, (#[trigger] g.lines[i]).1.from) && opt_resolves(g, g.lines[i].1.to)
    &&& forall|i: int|
        0 <= i < g.instruments.len() ==> opt_resolves(g, (#[trigger] g.instruments[i]).1.attach)
    &&& forall|i: int|
        0 <= i < g.signals.len() ==> resolves(g, (#[trigger] g.signals[i]).1.from) && resolves(g, g.signals[i].1.to)
}

pub(crate) proof fn lemma_has_error_concat(a: Seq<DiagV>, b: Seq<DiagV>)
    ensures
        has_error(a + b) == (has_error(a) || has_error(b)),
{
    let c = a + b;
    if has_error(a) {
        let i = choose|i: int| 0 <= i < a.len() && (#[trigger] a[i]).severity == Severity::Error;
        assert(c[i] == a[i]);
    }
    if has_error(b) {
        let i = choose|i: int| 0 <= i < b.len() && (#[trigger] b[i]).severity == Severity::Error;
        assert(c[a.len() + i] == b[i]);
    }
    if has_error(c) {
        let i = choose|i: int| 0 <= i < c.len() && (#[trigger] c[i]).severity == Severity::Error;
        if i < a.len() {
            assert(a[i] == c[i]);
        } else {
            assert(b[i - a.len()] == c[i]);
        }
    }
}

proof fn lemma_vocab_no_error(what: Seq<char>, value: Seq<char>, id: Seq<char>, plural: Seq<char>, known: Seq<Seq<char>>)
    ensures
        !has_error(vocab_diags(what, value, id, plural, known)),
{
}

proof fn lemma_ref_error(g: DiagramV, r: RefV, c: Seq<char>, p: Seq<char>)
    ensures
        has_error(ref_diags(g, r, c, p)) == !resolves(g, r),
{
    if !resolves(g, r) {
        assert(ref_diags(g, r, c, p)[0].severity == Severity::Error);
    }
}

proof fn lemma_opt_ref_error(g: DiagramV, r: Option<RefV>, c: Seq<char>, p: Seq<char>)
    ensures
        has_error(opt_ref_diags(g, r, c, p)) == !opt_resolves(g, r),
{
    if let Some(a) = r {
        lemma_ref_error(g, a, c, p);
    }
}

/// The checks of a sequence of entries report an error exactly when the
/// check of some entry does.
proof fn lemma_each_error<T>(s: Seq<(Seq<char>, T)>, f: spec_fn(T) -> Seq<DiagV>)
    ensures
        has_error(each_diags(s, f)) == exists|i: int| 0 <= i < s.len() && has_error(f(#[trigger] s[i].1)),
    decreases s.len(),
{
    if s.len() > 0 {
        let t = s.drop_last();
        lemma_each_error(t, f);
        lemma_has_error_concat(each_diags(t, f), f(s.last().1));
        if exists|i: int| 0 <= i < t.len() && has_error(f(#[trigger] t[i].1)) {
            let i = choose|i: int| 0 <= i < t.len() && has_error(f(#[trigger] t[i].1));
            assert(s[i] == t[i]);
        }
        if exists|i: int| 0 <= i < s.len() && has_error(f(#[trigger] s[i].1)) {
            let i = choose|i: int| 0 <= i < s.len() && has_error(f(#[trigger] s[i].1));
            if i < t.len() {
                assert(t[i] == s[i]);
            }
        }
    }
}

/// Validation reports an error exactly when some reference of the diagram
/// does not resolve; unknown types, classes and locations only ever give
/// warnings.
pub proof fn lemma_validation_errors_are_references(g: DiagramV)
    ensures
        has_error(validation_diags(g)) == !all_refs_resolve(g),
{
    assert forall|x: EquipmentV| has_error(#[trigger] equipment_check(g, x)) == !opt_resolves(g, x.attach) by {
        lemma_vocab_no_error("equipment type"@, x.equip_type, x.id, "types"@, equipment_type_names());
        lemma_opt_ref_error(g, x.attach, ctx("equipment"@, x.id), "attach"@);
        lemma_has_error_concat(
            vocab_diags("equipment type"@, x.equip_type, x.id, "types"@, equipment_type_names()),
            opt_ref_diags(g, x.attach, ctx("equipment"@, x.id), "attach"@),
        );
    }
    assert forall|x: ValveV| !has_error(#[trigger] valve_check(g, x)) by {
        lemma_vocab_no_error("valve type"@, x.valve_type, x.id, "types"@, valve_type_names());
    }
    assert forall|x: LineV| has_error(#[trigger] line_check(g, x)) == !(resolves(g, x.from) && opt_resolves(g, x.to)) by {
        let a = vocab_diags("line class"@, x.class, x.id, "classes"@, line_class_names());
        let b = ref_diags(g, x.from, ctx("line"@, x.id), "from"@);
        let c = opt_ref_diags(g, x.to, ctx("line"@, x.id), "to"@);
        lemma_vocab_no_error("line class"@, x.class, x.id, "classes"@, line_class_names());
        lemma_ref_error(g, x.from, ctx("line"@, x.id), "from"@);
        lemma_opt_ref_error(g, x.to, ctx("line"@, x.id), "to"@);
        lemma_has_error_concat(a, b);
        lemma_has_error_concat(a + b, c);
    }
    assert forall|x: InstrumentV| has_error(#[trigger] instrument_check(g, x)) == !opt_resolves(g, x.attach) by {
        let a = vocab_diags("instrument type"@, x.instr_type, x.id, "types"@, instrument_type_names());
        let b = match x.location {
            Some(loc) => vocab_diags("location"@, loc, x.id, "locations"@, location_names()),
            None => Seq::empty(),
        };
        let c = opt_ref_diags(g, x.attach, ctx("instrument"@, x.id), "attach"@);
        lemma_vocab_no_error("instrument type"@, x.instr_type, x.id, "types"@, instrument_type_names());
        if let Some(loc) = x.location {
            lemma_vocab_no_error("location"@, loc, x.id, "locations"@, location_names());
        }
        lemma_opt_ref_error(g, x.attach, ctx("instrument"@, x.id), "attach"@);
        lemma_has_error_concat(a, b);
        lemma_has_error_concat(a + b, c);
    }
    assert forall|x: SignalV| has_error(#[trigger] signal_check(g, x)) == !(resolves(g, x.from) && resolves(g, x.to)) by {
        let a = vocab_diags("signal type"@, x.sig_type, x.id, "types"@, signal_type_names());
        let b = ref_diags(g, x.from, ctx("signal"@, x.id), "from"@);
        let c = ref_diags(g, x.to, ctx("signal"@, x.id), "to"@);
        lemma_vocab_no_error("signal type"@, x.sig_type, x.id, "types"@, signal_type_names());
        lemma_ref_error(g, x.from, ctx("signal"@, x.id), "from"@);
        lemma_ref_error(g, x.to, ctx("signal"@, x.id), "to"@);
        lemma_has_error_concat(a, b);
        lemma_has_error_concat(a + b, c);
    }
    lemma_each_error(g.equipment, equipment_checks(g));
    lemma_each_error(g.valves, valve_checks(g));
    lemma_each_error(g.lines, line_checks(g));
    lemma_each_error(g.instruments, instrument_checks(g));
    lemma_each_error(g.signals, signal_checks(g));
    let e = each_diags(g.equipment, equipment_checks(g));
    let v = each_diags(g.valves, valve_checks(g));
    let l = each_diags(g.lines, line_checks(g));
    let n = each_diags(g.instruments, instrument_checks(g));
    let s = each_diags(g.signals, signal_checks(g));
    lemma_has_error_concat(e, v);
    lemma_has_error_concat(e + v, l);
    lemma_has_error_concat(e + v + l, n);
    lemma_has_error_concat(e + v + l + n, s);
    if !all_refs_resolve(g) {
        if !(forall|i: int| 0 <= i < g.equipment.len() ==> opt_resolves(g, (#[trigger] g.equipment[i]).1.attach)) {
            let i = choose|i: int| 0 <= i < g.equipment.len() && !opt_resolves(g, (#[trigger] g.equipment[i]).1.attach);
            assert(has_error(equipment_checks(g)(g.equipment[i].1)));
        } else if !(forall|i: int| 0 <= i < g.lines.len() ==> resolves(g, (#[trigger] g.lines[i]).1.from) && opt_resolves(g, g.lines[i].1.to)) {
            let i = choose|i: int| 0 <= i < g.lines.len() && !(resolves(g, (#[trigger] g.lines[i]).1.from) && opt_resolves(g, g.lines[i].1.to));
            assert(has_error(line_checks(g)(g.lines[i].1)));
        } else if !(forall|i: int| 0 <= i < g.instruments.len() ==> opt_resolves(g, (#[trigger] g.instruments[i]).1.attach)) {
            let i = choose|i: int| 0 <= i < g.instruments.len() && !opt_resolves(g, (#[trigger] g.instruments[i]).1.attach);
            assert(has_error(instrument_checks(g)(g.instruments[i].1)));
        } else {
            let i = choose|i: int| 0 <= i < g.signals.len() && !(resolves(g, (#[trigger] g.signals[i]).1.from) && resolves(g, g.signals[i].1.to));
            assert(has_error(signal_checks(g)(g.signals[i].1)));
        }
    }
    if has_error(validation_diags(g)) {
        if has_error(e) {
            let i = choose|i: int| 0 <= i < g.equipment.len() && has_error(equipment_checks(g)(#[trigger] g.equipment[i].1));
            assert(!opt_resolves(g, g.equipment[i].1.attach));
        } else if has_error(v) {
            let i = choose|i: int| 0 <= i < g.valves.len() && has_error(valve_checks(g)(#[trigger] g.valves[i].1));
            assert(!has_error(valve_check(g, g.valves[i].1)));
        } else if has_error(l) {
            let i = choose|i: int| 0 <= i < g.lines.len() && has_error(line_checks(g)(#[trigger] g.lines[i].1));
            assert(!(resolves(g, g.lines[i].1.from) && opt_resolves(g, g.lines[i].1.to)));
        } else if has_error(n) {
            let i = choose|i: int| 0 <= i < g.instruments.len() && has_error(instrument_checks(g)(#[trigger] g.instruments[i].1));
            assert(!opt_resolves(g, g.instruments[i].1.attach));
        } else {
            let i = choose|i: int| 0 <= i < g.signals.len() && has_error(signal_checks(g)(#[trigger] g.signals[i].1));
            assert(!(resolves(g, g.signals[i].1.from) && resolves(g, g.signals[i].1.to)));
        }
    }
}

/// A valve's declared ports are its own: when `id` names a valve and no
/// equipment, the ports looked up for `id` are that valve's ports.
pub proof fn lemma_valve_ports_are_declared(g: DiagramV, j: int)
    requires
        0 <= j < g.valves.len(),
        forall|a: int, b: int| 0 <= a < b < g.valves.len() ==> (#[trigger] g.valves[a]).0 != (#[trigger] g.valves[b]).0,
        forall|a: int| 0 <= a < g.equipment.len() ==> (#[trigger] g.equipment[a]).0 != g.valves[j].0,
    ensures
        ports_of(g, g.valves[j].0) == Some(g.valves[j].1.ports),
{
    let id = g.valves[j].0;
    assert(!crate::model::has_key(g.equipment, id));
    let k = choose|k: int| 0 <= k < g.valves.len() && (#[trigger] g.valves[k]).0 == id;
    assert(k == j);
}

/// A line that starts at a port that its valve does not declare makes
/// validation fail: when `id` names a valve with ports and no equipment,
/// a line from `id.p` with `p` none of the valve's port names is an error.
pub proof fn lemma_undeclared_valve_port_is_an_error(g: DiagramV, i: int, j: int)
    requires
        0 <= i < g.lines.len(),
        0 <= j < g.valves.len(),
        forall|a: int, b: int| 0 <= a < b < g.valves.len() ==> (#[trigger] g.valves[a]).0 != (#[trigger] g.valves[b]).0,
        forall|a: int| 0 <= a < g.equipment.len() ==> (#[trigger] g.equipment[a]).0 != g.valves[j].0,
        g.lines[i].1.from.id == g.valves[j].0,
        g.lines[i].1.from.port is Some,
        g.valves[j].1.ports.len() > 0,
        forall|k: int| 0 <= k < g.valves[j].1.ports.len() ==> (#[trigger] g.valves[j].1.ports[k]).name
            != g.lines[i].1.from.port->Some_0,
    ensures
        has_error(validation_diags(g)),
{
    lemma_valve_ports_are_declared(g, j);
    lemma_validation_errors_are_references(g);
    let ps = g.valves[j].1.ports;
    let pn = g.lines[i].1.from.port->Some_0;
    if port_names(ps).contains(pn) {
        let k = choose|k: int| 0 <= k < port_names(ps).len() && port_names(ps)[k] == pn;
        assert(ps[k].name == pn);
    }
    assert(!resolves(g, g.lines[i].1.from));
}

/// Whether the diagram makes reference `r`: an end of a line or signal, or
/// what a piece of equipment or an instrument is attached to.
pub open spec fn makes_ref(g: DiagramV, r: RefV) -> bool {
    ||| exists|i: int| 0 <= i < g.lines.len() && (#[trigger] g.lines[i]).1.from == r
    ||| exists|i: int| 0 <= i < g.lines.len() && (#[trigger] g.lines[i]).1.to == Some(r)
    ||| exists|i: int| 0 <= i < g.signals.len() && (#[trigger] g.signals[i]).1.from == r
    ||| exists|i: int| 0 <= i < g.signals.len() && (#[trigger] g.signals[i]).1.to == r
    ||| exists|i: int| 0 <= i < g.equipment.len() && (#[trigger] g.equipment[i]).1.attach == Some(r)
    ||| exists|i: int| 0 <= i < g.instruments.len() && (#[trigger] g.instruments[i]).1.attach == Some(r)
}

proof fn lemma_unresolved_fails(g: DiagramV, r: RefV)
    requires
        makes_ref(g, r),
        !resolves(g, r),
    ensures
        has_error(validation_diags(g)),
{
    lemma_validation_errors_are_references(g);
    if exists|i: int| 0 <= i < g.lines.len() && (#[trigger] g.lines[i]).1.from == r {
        let i = choose|i: int| 0 <= i < g.lines.len() && (#[trigger] g.lines[i]).1.from == r;
        assert(!(resolves(g, g.lines[i].1.from) && opt_resolves(g, g.lines[i].1.to)));
    } else if exists|i: int| 0 <= i < g.lines.len() && (#[trigger] g.lines[i]).1.to == Some(r) {
        let i = choose|i: int| 0 <= i < g.lines.len() && (#[trigger] g.lines[i]).1.to == Some(r);
        assert(!(resolves(g, g.lines[i].1.from) && opt_resolves(g, g.lines[i].1.to)));
    } else if exists|i: int| 0 <= i < g.signals.len() && (#[trigger] g.signals[i]).1.from == r {
        let i = choose|i: int| 0 <= i < g.signals.len() && (#[trigger] g.signals[i]).1.from == r;
        assert(!(resolves(g, g.signals[i].1.from) && resolves(g, g.signals[i].1.to)));
    } else if exists|i: int| 0 <= i < g.signals.len() && (#[trigger] g.signals[i]).1.to == r {
        let i = choose|i: int| 0 <= i < g.signals.len() && (#[trigger] g.signals[i]).1.to == r;
        assert(!(resolves(g, g.signals[i].1.from) && resolves(g, g.signals[i].1.to)));
    } else if exists|i: int| 0 <= i < g.equipment.len() && (#[trigger] g.equipment[i]).1.attach == Some(r) {
        let i = choose|i: int| 0 <= i < g.equipment.len() && (#[trigger] g.equipment[i]).1.attach == Some(r);
        assert(!opt_resolves(g, g.equipment[i].1.attach));
    } else {
        let i = choose|i: int| 0 <= i < g.instruments.len() && (#[trigger] g.instruments[i]).1.attach == Some(r);
        assert(!opt_resolves(g, g.instruments[i].1.attach));
    }
}

/// A reference to an id that no object of the diagram has makes validation
/// fail.
pub proof fn lemma_reference_to_missing_object_is_an_error(g: DiagramV, r: RefV)
    requires
        makes_ref(g, r),
        forall|i: int| 0 <= i < g.equipment.len() ==> (#[trigger] g.equipment[i]).0 != r.id,
        forall|i: int| 0 <= i < g.valves.len() ==> (#[trigger] g.valves[i]).0 != r.id,
        forall|i: int| 0 <= i < g.lines.len() ==> (#[trigger] g.lines[i]).0 != r.id,
        forall|i: int| 0 <= i < g.instruments.len() ==> (#[trigger] g.instruments[i]).0 != r.id,
        forall|i: int| 0 <= i < g.signals.len() ==> (#[trigger] g.signals[i]).0 != r.id,
        forall|i: int| 0 <= i < g.junctions.len() ==> (#[trigger] g.junctions[i]).0 != r.id,
        forall|i: int| 0 <= i < g.notes.len() ==> (#[trigger] g.notes[i]).0 != r.id,
        forall|i: int| 0 <= i < g.groups.len() ==> (#[trigger] g.groups[i]).0 != r.id,
        forall|i: int| 0 <= i < g.areas.len() ==> (#[trigger] g.areas[i]).0 != r.id,
    ensures
        has_error(validation_diags(g)),
{
    assert(!id_in(g, r.id));
    lemma_unresolved_fails(g, r);
}

/// A reference to a port that its equipment does not declare, among a
/// non-empty list of ports, makes validation fail.
pub proof fn lemma_undeclared_equipment_port_is_an_error(g: DiagramV, r: RefV, j: int)
    requires
        makes_ref(g, r),
        0 <= j < g.equipment.len(),
        forall|a: int, b: int|
            0 <= a < b < g.equipment.len() ==> (#[trigger] g.equipment[a]).0 != (#[trigger] g.equipment[b]).0,
        g.equipment[j].0 == r.id,
        r.port is Some,
        g.equipment[j].1.ports.len() > 0,
        forall|k: int| 0 <= k < g.equipment[j].1.ports.len() ==> (#[trigger] g.equipment[j].1.ports[k]).name
            != r.port->Some_0,
    ensures
        has_error(validation_diags(g)),
{
    let k = choose|k: int| 0 <= k < g.equipment.len() && (#[trigger] g.equipment[k]).0 == r.id;
    assert(k == j);
    assert(ports_of(g, r.id) == Some(g.equipment[j].1.ports));
    let ps = g.equipment[j].1.ports;
    let pn = r.port->Some_0;
    if port_names(ps).contains(pn) {
        let k = choose|k: int| 0 <= k < port_names(ps).len() && port_names(ps)[k] == pn;
        assert(ps[k].name == pn);
    }
    lemma_unresolved_fails(g, r);
}


/// Any reference that the diagram makes to a port that a valve (an id
/// that names no equipment) does not declare, among a non-empty list of
/// ports, makes validation fail: line ends, signal ends and attachments
/// alike.
pub proof fn lemma_undeclared_valve_port_reference_is_an_error(g: DiagramV, r: RefV, j: int)
    requires
        makes_ref(g, r),
        0 <= j < g.valves.len(),
        forall|a: int, b: int| 0 <= a < b < g.valves.len() ==> (#[trigger] g.valves[a]).0 != (#[trigger] g.valves[b]).0,
        forall|a: int| 0 <= a < g.equipment.len() ==> (#[trigger] g.equipment[a]).0 != g.valves[j].0,
        g.valves[j].0 == r.id,
        r.port is Some,
        g.valves[j].1.ports.len() > 0,
        forall|k: int| 0 <= k < g.valves[j].1.ports.len() ==> (#[trigger] g.valves[j].1.ports[k]).name
            != r.port->Some_0,
    ensures
        has_error(validation_diags(g)),
{
    lemma_valve_ports_are_declared(g, j);
    let ps = g.valves[j].1.ports;
    let pn = r.port->Some_0;
    if port_names(ps).contains(pn) {
        let k = choose|k: int| 0 <= k < port_names(ps).len() && port_names(ps)[k] == pn;
        assert(ps[k].name == pn);
    }
    lemma_unresolved_fails(g, r);
}

// ---- Laws of vocabulary warnings ----

/// The warning for value `value` of object `id`, unknown among `known`.
pub open spec fn unknown_warning(what: Seq<char>, value: Seq<char>, id: Seq<char>, plural: Seq<char>, known: Seq<Seq<char>>) -> DiagV {
    dg(
        Severity::Warning,
        "unknown "@ + what + " `"@ + value + "` for `"@ + id + "`; known "@ + plural + ": "@ + join(known, ", "@),
        None,
    )
}

proof fn lemma_in_concat(a: Seq<DiagV>, b: Seq<DiagV>, d: DiagV)
    ensures
        a.contains(d) ==> (a + b).contains(d),
        b.contains(d) ==> (a + b).contains(d),
{
    if a.contains(d) {
        let i = choose|i: int| 0 <= i < a.len() && a[i] == d;
        assert((a + b)[i] == d);
    }
    if b.contains(d) {
        let i = choose|i: int| 0 <= i < b.len() && b[i] == d;
        assert((a + b)[a.len() + i] == d);
    }
}

proof fn lemma_each_contains<T>(s: Seq<(Seq<char>, T)>, f: spec_fn(T) -> Seq<DiagV>, i: int, d: DiagV)
    requires
        0 <= i < s.len(),
        f(s[i].1).contains(d),
    ensures
        each_diags(s, f).contains(d),
    decreases s.len(),
{
    let t = s.drop_last();
    if i < s.len() - 1 {
        assert(t[i] == s[i]);
        lemma_each_contains(t, f, i, d);
    }
    lemma_in_concat(each_diags(t, f), f(s.last().1), d);
}

proof fn lemma_vocab_warns(what: Seq<char>, value: Seq<char>, id: Seq<char>, plural: Seq<char>, known: Seq<Seq<char>>)
    requires
        !known.contains(value),
    ensures
        vocab_diags(what, value, id, plural, known).contains(unknown_warning(what, value, id, plural, known)),
{
    assert(vocab_diags(what, value, id, plural, known)[0] == unknown_warning(what, value, id, plural, known));
}

/// Every value outside its vocabulary is reported by a warning that names
/// the value, its object and the known alternatives: equipment and valve
/// types, line classes, instrument types and locations, signal types.
pub proof fn lemma_unknown_vocabulary_warns(g: DiagramV)
    ensures
        forall|i: int| 0 <= i < g.equipment.len() && !equipment_type_names().contains((#[trigger] g.equipment[i]).1.equip_type)
            ==> validation_diags(g).contains(unknown_warning("equipment type"@, g.equipment[i].1.equip_type, g.equipment[i].1.id, "types"@, equipment_type_names())),
        forall|i: int| 0 <= i < g.valves.len() && !valve_type_names().contains((#[trigger] g.valves[i]).1.valve_type)
            ==> validation_diags(g).contains(unknown_warning("valve type"@, g.valves[i].1.valve_type, g.valves[i].1.id, "types"@, valve_type_names())),
        forall|i: int| 0 <= i < g.lines.len() && !line_class_names().contains((#[trigger] g.lines[i]).1.class)
            ==> validation_diags(g).contains(unknown_warning("line class"@, g.lines[i].1.class, g.lines[i].1.id, "classes"@, line_class_names())),
        forall|i: int| 0 <= i < g.instruments.len() && !instrument_type_names().contains((#[trigger] g.instruments[i]).1.instr_type)
            ==> validation_diags(g).contains(unknown_warning("instrument type"@, g.instruments[i].1.instr_type, g.instruments[i].1.id, "types"@, instrument_type_names())),
        forall|i: int| 0 <= i < g.instruments.len() && (#[trigger] g.instruments[i]).1.location is Some && !location_names().contains(g.instruments[i].1.location->Some_0)
            ==> validation_diags(g).contains(unknown_warning("location"@, g.instruments[i].1.location->Some_0, g.instruments[i].1.id, "locations"@, location_names())),
        forall|i: int| 0 <= i < g.signals.len() && !signal_type_names().contains((#[trigger] g.signals[i]).1.sig_type)
            ==> validation_diags(g).contains(unknown_warning("signal type"@, g.signals[i].1.sig_type, g.signals[i].1.id, "types"@, signal_type_names())),
{
    let e = each_diags(g.equipment, equipment_checks(g));
    let v = each_diags(g.valves, valve_checks(g));
    let l = each_diags(g.lines, line_checks(g));
    let n = each_diags(g.instruments, instrument_checks(g));
    let s = each_diags(g.signals, signal_checks(g));
    assert(validation_diags(g) == e + v + l + n + s);
    assert forall|i: int| 0 <= i < g.equipment.len() && !equipment_type_names().contains((#[trigger] g.equipment[i]).1.equip_type)
        implies validation_diags(g).contains(unknown_warning("equipment type"@, g.equipment[i].1.equip_type, g.equipment[i].1.id, "types"@, equipment_type_names())) by {
        let x = g.equipment[i].1;
        let d = unknown_warning("equipment type"@, x.equip_type, x.id, "types"@, equipment_type_names());
        lemma_vocab_warns("equipment type"@, x.equip_type, x.id, "types"@, equipment_type_names());
        lemma_in_concat(vocab_diags("equipment type"@, x.equip_type, x.id, "types"@, equipment_type_names()),
            opt_ref_diags(g, x.attach, ctx("equipment"@, x.id), "attach"@), d);
        assert(equipment_checks(g)(x) == equipment_check(g, x));
        lemma_each_contains(g.equipment, equipment_checks(g), i, d);
        lemma_in_concat(e, v, d);
        lemma_in_concat(e + v, l, d);
        lemma_in_concat(e + v + l, n, d);
        lemma_in_concat(e + v + l + n, s, d);
    }
    assert forall|i: int| 0 <= i < g.valves.len() && !valve_type_names().contains((#[trigger] g.valves[i]).1.valve_type)
        implies validation_diags(g).contains(unknown_warning("valve type"@, g.valves[i].1.valve_type, g.valves[i].1.id, "types"@, valve_type_names())) by {
        let x = g.valves[i].1;
        let d = unknown_warning("valve type"@, x.valve_type, x.id, "types"@, valve_type_names());
        lemma_vocab_warns("valve type"@, x.valve_type, x.id, "types"@, valve_type_names());
        assert(valve_checks(g)(x) == valve_check(g, x));
        lemma_each_contains(g.valves, valve_checks(g), i, d);
        lemma_in_concat(e, v, d);
        lemma_in_concat(e + v, l, d);
        lemma_in_concat(e + v + l, n, d);
        lemma_in_concat(e + v + l + n, s, d);
    }
    assert forall|i: int| 0 <= i < g.lines.len() && !line_class_names().contains((#[trigger] g.lines[i]).1.class)
        implies validation_diags(g).contains(unknown_warning("line class"@, g.lines[i].1.class, g.lines[i].1.id, "classes"@, line_class_names())) by {
        let x = g.lines[i].1;
        let d = unknown_warning("line class"@, x.class, x.id, "classes"@, line_class_names());
        let a = vocab_diags("line class"@, x.class, x.id, "classes"@, line_class_names());
        let b = ref_diags(g, x.from, ctx("line"@, x.id), "from"@);
        let c = opt_ref_diags(g, x.to, ctx("line"@, x.id), "to"@);
        lemma_vocab_warns("line class"@, x.class, x.id, "classes"@, line_class_names());
        lemma_in_concat(a, b, d);
        lemma_in_concat(a + b, c, d);
        assert(line_checks(g)(x) == line_check(g, x));
        lemma_each_contains(g.lines, line_checks(g), i, d);
        lemma_in_concat(e + v, l, d);
        lemma_in_concat(e + v + l, n, d);
        lemma_in_concat(e + v + l + n, s, d);
    }
    assert forall|i: int| 0 <= i < g.instruments.len() && !instrument_type_names().contains((#[trigger] g.instruments[i]).1.instr_type)
        implies validation_diags(g).contains(unknown_warning("instrument type"@, g.instruments[i].1.instr_type, g.instruments[i].1.id, "types"@, instrument_type_names())) by {
        let x = g.instruments[i].1;
        let d = unknown_warning("instrument type"@, x.instr_type, x.id, "types"@, instrument_type_names());
        let a = vocab_diags("instrument type"@, x.instr_type, x.id, "types"@, instrument_type_names());
        let b = match x.location {
            Some(loc) => vocab_diags("location"@, loc, x.id, "locations"@, location_names()),
            None => Seq::empty(),
        };
        let c = opt_ref_diags(g, x.attach, ctx("instrument"@, x.id), "attach"@);
        lemma_vocab_warns("instrument type"@, x.instr_type, x.id, "types"@, instrument_type_names());
        lemma_in_concat(a, b, d);
        lemma_in_concat(a + b, c, d);
        assert(instrument_checks(g)(x) == instrument_check(g, x));
        lemma_each_contains(g.instruments, instrument_checks(g), i, d);
        lemma_in_concat(e + v + l, n, d);
        lemma_in_concat(e + v + l + n, s, d);
    }
    assert forall|i: int| 0 <= i < g.instruments.len() && (#[trigger] g.instruments[i]).1.location is Some && !location_names().contains(g.instruments[i].1.location->Some_0)
        implies validation_diags(g).contains(unknown_warning("location"@, g.instruments[i].1.location->Some_0, g.instruments[i].1.id, "locations"@, location_names())) by {
        let x = g.instruments[i].1;
        let loc = x.location->Some_0;
        let d = unknown_warning("location"@, loc, x.id, "locations"@, location_names());
        let a = vocab_diags("instrument type"@, x.instr_type, x.id, "types"@, instrument_type_names());
        let b = vocab_diags("location"@, loc, x.id, "locations"@, location_names());
        let c = opt_ref_diags(g, x.attach, ctx("instrument"@, x.id), "attach"@);
        lemma_vocab_warns("location"@, loc, x.id, "locations"@, location_names());
        lemma_in_concat(a, b, d);
        lemma_in_concat(a + b, c, d);
        assert(instrument_checks(g)(x) == instrument_check(g, x));
        lemma_each_contains(g.instruments, instrument_checks(g), i, d);
        lemma_in_concat(e + v + l, n, d);
        lemma_in_concat(e + v + l + n, s, d);
    }
    assert forall|i: int| 0 <= i < g.signals.len() && !signal_type_names().contains((#[trigger] g.signals[i]).1.sig_type)
        implies validation_diags(g).contains(unknown_warning("signal type"@, g.signals[i].1.sig_type, g.signals[i].1.id, "types"@, signal_type_names())) by {
        let x = g.signals[i].1;
        let d = unknown_warning("signal type"@, x.sig_type, x.id, "types"@, signal_type_names());
        let a = vocab_diags("signal type"@, x.sig_type, x.id, "types"@, signal_type_names());
        let b = ref_diags(g, x.from, ctx("signal"@, x.id), "from"@);
        let c = ref_diags(g, x.to, ctx("signal"@, x.id), "to"@);
        lemma_vocab_warns("signal type"@, x.sig_type, x.id, "types"@, signal_type_names());
        lemma_in_concat(a, b, d);
        lemma_in_concat(a + b, c, d);
        assert(signal_checks(g)(x) == signal_check(g, x));
        lemma_each_contains(g.signals, signal_checks(g), i, d);
        lemma_in_concat(e + v + l + n, s, d);
    }
}

// ---- Laws of single references ----

/// A reference without a port to an object that exists is reported by
/// nothing.
pub proof fn lemma_portless_reference_is_quiet(g: DiagramV, r: RefV, c: Seq<char>, p: Seq<char>)
    requires
        r.port is None,
        id_in(g, r.id),
    ensures
        ref_diags(g, r, c, p) == Seq::<DiagV>::empty(),
{
}

/// A reference to port `pn` of the valve `v` (an id that names no
/// equipment) is reported by nothing when the valve declares a port of that
/// name or no ports at all, and otherwise by exactly one error that names
/// the reference and lists the valve's declared ports.
pub proof fn lemma_valve_port_reference(g: DiagramV, j: int, pn: Seq<char>, c: Seq<char>, p: Seq<char>)
    requires
        0 <= j < g.valves.len(),
        forall|a: int, b: int| 0 <= a < b < g.valves.len() ==> (#[trigger] g.valves[a]).0 != (#[trigger] g.valves[b]).0,
        forall|a: int| 0 <= a < g.equipment.len() ==> (#[trigger] g.equipment[a]).0 != g.valves[j].0,
    ensures
        ({
            let id = g.valves[j].0;
            let ps = g.valves[j].1.ports;
            let r = RefV { id: id, port: Some(pn) };
            &&& (ps.len() == 0 || exists|k: int| 0 <= k < ps.len() && (#[trigger] ps[k]).name == pn)
                ==> ref_diags(g, r, c, p) == Seq::<DiagV>::empty()
            &&& (ps.len() > 0 && forall|k: int| 0 <= k < ps.len() ==> (#[trigger] ps[k]).name != pn)
                ==> ref_diags(g, r, c, p) == seq![
                dg(
                    Severity::Error,
                    "reference `"@ + id + "."@ + pn + "` points to missing port `"@ + pn + "`; declared ports: "@
                        + join(ps.map_values(|q: PortV| q.name), ", "@),
                    None,
                ),
            ]
        }),
{
    lemma_valve_ports_are_declared(g, j);
    let id = g.valves[j].0;
    let ps = g.valves[j].1.ports;
    assert(crate::model::has_key(g.valves, id));
    assert(id_in(g, id));
    assert(port_names(ps) =~= ps.map_values(|q: PortV| q.name));
    if exists|k: int| 0 <= k < ps.len() && (#[trigger] ps[k]).name == pn {
        let k = choose|k: int| 0 <= k < ps.len() && (#[trigger] ps[k]).name == pn;
        assert(port_names(ps)[k] == pn);
    }
    if port_names(ps).contains(pn) {
        let k = choose|k: int| 0 <= k < port_names(ps).len() && port_names(ps)[k] == pn;
        assert(ps[k].name == pn);
    }
}

/// A reference to a port that a piece of equipment declares, or to any
/// port of equipment that declares none, is reported by nothing.
pub proof fn lemma_declared_equipment_port_is_quiet(g: DiagramV, j: int, pn: Seq<char>, c: Seq<char>, p: Seq<char>)
    requires
        0 <= j < g.equipment.len(),
        forall|a: int, b: int|
            0 <= a < b < g.equipment.len() ==> (#[trigger] g.equipment[a]).0 != (#[trigger] g.equipment[b]).0,
        g.equipment[j].1.ports.len() == 0 || exists|k: int|
            0 <= k < g.equipment[j].1.ports.len() && (#[trigger] g.equipment[j].1.ports[k]).name == pn,
    ensures
        ref_diags(g, RefV { id: g.equipment[j].0, port: Some(pn) }, c, p) == Seq::<DiagV>::empty(),
{
    let id = g.equipment[j].0;
    let k0 = choose|k: int| 0 <= k < g.equipment.len() && (#[trigger] g.equipment[k]).0 == id;
    assert(k0 == j);
    assert(ports_of(g, id) == Some(g.equipment[j].1.ports));
    assert(id_in(g, id));
    let ps = g.equipment[j].1.ports;
    if ps.len() > 0 {
        let k = choose|k: int| 0 <= k < ps.len() && (#[trigger] ps[k]).name == pn;
        assert(port_names(ps)[k] == pn);
    }
}

} // verus!
