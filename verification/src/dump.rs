//! A stable, human-readable dump of a normalized diagram, for debugging
//! and tests.

use vstd::prelude::*;
use crate::ast::join;
use crate::model::{
    Diagram, DiagramV, EquipmentV, IdMap, InstrumentV, LineV, ObjRef, Port, PortV, RefV, Side,
    SignalV, ValveV, entries_view, ports_view, ref_text,
};
use crate::text::{
    dec_int, dec_nat, debug_str, fmt_i32, fmt_usize, push_char, push_str, str_debug, string_of,
};

verus! {

/// One output line.
pub open spec fn ln(s: Seq<char>) -> Seq<char> {
    s + seq!['\n']
}

/// The `Debug` name of a side.
pub open spec fn side_name(s: Side) -> Seq<char> {
    match s {
        Side::North => "North"@,
        Side::South => "South"@,
        Side::East => "East"@,
        Side::West => "West"@,
    }
}

fn side_debug(s: Side) -> (r: &'static str)
    ensures
        r@ == side_name(s),
{
    match s {
        Side::North => "North",
        Side::South => "South",
        Side::East => "East",
        Side::West => "West",
    }
}

/// `name:Side`, or the bare name when the port has no side.
pub open spec fn port_text(p: PortV) -> Seq<char> {
    match p.side {
        Some(s) => p.name + ":"@ + side_name(s),
        None => p.name,
    }
}

pub open spec fn ports_text(ps: Seq<PortV>) -> Seq<char> {
    join(ps.map_values(|p: PortV| port_text(p)), ", "@)
}

/// A count of items as a section heading.
pub open spec fn heading(title: Seq<char>, n: nat) -> Seq<char> {
    ln("## "@ + title + " ("@ + dec_nat(n) + " items)"@)
}

pub open spec fn equipment_dump(id: Seq<char>, e: EquipmentV) -> Seq<char> {
    ln("  "@ + id + " ["@ + e.equip_type + "]"@) + (match e.pos {
        Some(p) => ln("    at: ("@ + dec_int(p.x as int) + ", "@ + dec_int(p.y as int) + ")"@),
        None => Seq::empty(),
    }) + (match e.label {
        Some(l) => ln("    label: "@ + str_debug(l)),
        None => Seq::empty(),
    }) + (if e.ports.len() > 0 {
        ln("    ports: "@ + ports_text(e.ports))
    } else {
        Seq::empty()
    })
}

pub open spec fn valve_dump(id: Seq<char>, v: ValveV) -> Seq<char> {
    ln("  "@ + id + " ["@ + v.valve_type + "]"@) + (match v.actuator {
        Some(a) => ln("    actuator: "@ + a),
        None => Seq::empty(),
    }) + (match v.fail {
        Some(f) => ln("    fail: "@ + f),
        None => Seq::empty(),
    })
}

pub open spec fn line_dump(id: Seq<char>, l: LineV) -> Seq<char> {
    ln(
        "  "@ + id + " ["@ + l.class + "]: "@ + ref_text(l.from) + " -> "@ + match l.to {
            Some(t) => ref_text(t),
            None => "(open end)"@,
        },
    )
}

pub open spec fn instrument_dump(id: Seq<char>, x: InstrumentV) -> Seq<char> {
    ln("  "@ + id + " ["@ + x.instr_type + "]"@) + match x.attach {
        Some(a) => ln("    attach: "@ + ref_text(a)),
        None => Seq::empty(),
    }
}

pub open spec fn signal_dump(id: Seq<char>, s: SignalV) -> Seq<char> {
    ln("  "@ + id + " ["@ + s.sig_type + "]: "@ + ref_text(s.from) + " -> "@ + ref_text(s.to))
}

/// The dumps of all entries, in order.
pub open spec fn entries_dump<T>(es: Seq<(Seq<char>, T)>, f: spec_fn(Seq<char>, T) -> Seq<char>) -> Seq<char>
    decreases es.len(),
{
    if es.len() == 0 {
        Seq::empty()
    } else {
        entries_dump(es.drop_last(), f) + f(es.last().0, es.last().1)
    }
}

pub open spec fn equipment_dumps() -> spec_fn(Seq<char>, EquipmentV) -> Seq<char> {
    |id: Seq<char>, e: EquipmentV| equipment_dump(id, e)
}

pub open spec fn valve_dumps() -> spec_fn(Seq<char>, ValveV) -> Seq<char> {
    |id: Seq<char>, v: ValveV| valve_dump(id, v)
}

pub open spec fn line_dumps() -> spec_fn(Seq<char>, LineV) -> Seq<char> {
    |id: Seq<char>, l: LineV| line_dump(id, l)
}

pub open spec fn instrument_dumps() -> spec_fn(Seq<char>, InstrumentV) -> Seq<char> {
    |id: Seq<char>, x: InstrumentV| instrument_dump(id, x)
}

pub open spec fn signal_dumps() -> spec_fn(Seq<char>, SignalV) -> Seq<char> {
    |id: Seq<char>, s: SignalV| signal_dump(id, s)
}

/// The dump of a diagram read from `input`: a title, then equipment,
/// valves, lines, instruments and signals, each under a heading with its
/// count and separated by blank lines.
pub open spec fn dump_text(input: Seq<char>, g: DiagramV) -> Seq<char> {
    ln("# Diagram dump for "@ + input) + ln(Seq::empty())
        + heading("Equipment"@, g.equipment.len()) + entries_dump(g.equipment, equipment_dumps())
        + ln(Seq::empty())
        + heading("Valves"@, g.valves.len()) + entries_dump(g.valves, valve_dumps())
        + ln(Seq::empty())
        + heading("Lines"@, g.lines.len()) + entries_dump(g.lines, line_dumps())
        + ln(Seq::empty())
        + heading("Instruments"@, g.instruments.len()) + entries_dump(g.instruments, instrument_dumps())
        + ln(Seq::empty())
        + heading("Signals"@, g.signals.len()) + entries_dump(g.signals, signal_dumps())
}

fn push_line_end(out: &mut String)
    ensures
        final(out)@ == old(out)@.push('\n'),
{
    push_char(out, '\n');
}

fn push_heading(out: &mut String, title: &str, n: usize)
    ensures
        final(out)@ == old(out)@ + heading(title@, n as nat),
{
    let ghost start = out@;
    push_str(out, "## ");
    push_str(out, title);
    push_str(out, " (");
    let c = fmt_usize(n);
    push_str(out, c.as_str());
    push_str(out, " items)");
    push_line_end(out);
    assert(out@ =~= start + heading(title@, n as nat));
}

fn push_ref(out: &mut String, r: &ObjRef)
    ensures
        final(out)@ == old(out)@ + ref_text(r@),
{
    let t = r.display();
    push_str(out, t.as_str());
}

fn push_ports(out: &mut String, ports: &Vec<Port>)
    ensures
        final(out)@ == old(out)@ + ports_text(ports_view(ports@)),
{
    let ghost start = out@;
    let ghost texts = ports_view(ports@).map_values(|p: PortV| port_text(p));
    let mut i: usize = 0;
    while i < ports.len()
        invariant
            i <= ports@.len(),
            texts == ports_view(ports@).map_values(|p: PortV| port_text(p)),
            out@ == start + join(texts.subrange(0, i as int), ", "@),
        decreases ports@.len() - i,
    {
        if i > 0 {
            push_str(out, ", ");
        }
        let ghost mid = out@;
        let p = &ports[i];
        push_str(out, p.name.as_str());
        if let Some(s) = p.side {
            push_str(out, ":");
            push_str(out, side_debug(s));
        }
        proof {
            assert(out@ =~= mid + port_text(p@));
            let pre = texts.subrange(0, i as int);
            let post = texts.subrange(0, i + 1);
            assert(post.drop_last() =~= pre);
            assert(post.last() == port_text(p@));
            if i == 0 {
                assert(pre =~= Seq::<Seq<char>>::empty());
            }
            assert(out@ =~= start + join(post, ", "@));
        }
        i = i + 1;
    }
    assert(texts.subrange(0, i as int) =~= texts);
}

fn push_equipment(out: &mut String, id: &String, e: &crate::model::Equipment)
    ensures
        final(out)@ == old(out)@ + equipment_dump(id@, e@),
{
    let ghost start = out@;
    push_str(out, "  ");
    push_str(out, id.as_str());
    push_str(out, " [");
    push_str(out, e.equip_type.as_str());
    push_str(out, "]");
    push_line_end(out);
    let ghost a = out@;
    assert(a =~= start + ln("  "@ + id@ + " ["@ + e@.equip_type + "]"@));
    if let Some(pos) = &e.pos {
        push_str(out, "    at: (");
        let x = fmt_i32(pos.x);
        push_str(out, x.as_str());
        push_str(out, ", ");
        let y = fmt_i32(pos.y);
        push_str(out, y.as_str());
        push_str(out, ")");
        push_line_end(out);
    }
    let ghost b = out@;
    assert(b =~= a + match e@.pos {
        Some(p) => ln("    at: ("@ + dec_int(p.x as int) + ", "@ + dec_int(p.y as int) + ")"@),
        None => Seq::empty(),
    });
    if let Some(label) = &e.label {
        push_str(out, "    label: ");
        let d = debug_str(label.as_str());
        push_str(out, d.as_str());
        push_line_end(out);
    }
    let ghost c = out@;
    assert(c =~= b + match e@.label {
        Some(l) => ln("    label: "@ + str_debug(l)),
        None => Seq::empty(),
    });
    if e.ports.len() > 0 {
        push_str(out, "    ports: ");
        push_ports(out, &e.ports);
        push_line_end(out);
    }
    assert(out@ =~= c + if e@.ports.len() > 0 {
        ln("    ports: "@ + ports_text(e@.ports))
    } else {
        Seq::empty()
    });
    assert(out@ =~= start + equipment_dump(id@, e@));
}

fn push_valve(out: &mut String, id: &String, v: &crate::model::Valve)
    ensures
        final(out)@ == old(out)@ + valve_dump(id@, v@),
{
    let ghost start = out@;
    push_str(out, "  ");
    push_str(out, id.as_str());
    push_str(out, " [");
    push_str(out, v.valve_type.as_str());
    push_str(out, "]");
    push_line_end(out);
    let ghost a = out@;
    if let Some(act) = &v.actuator {
        push_str(out, "    actuator: ");
        push_str(out, act.as_str());
        push_line_end(out);
    }
    let ghost b = out@;
    if let Some(fail) = &v.fail {
        push_str(out, "    fail: ");
        push_str(out, fail.as_str());
        push_line_end(out);
    }
    assert(out@ =~= start + valve_dump(id@, v@));
}

fn push_line(out: &mut String, id: &String, l: &crate::model::Line)
    ensures
        final(out)@ == old(out)@ + line_dump(id@, l@),
{
    let ghost start = out@;
    push_str(out, "  ");
    push_str(out, id.as_str());
    push_str(out, " [");
    push_str(out, l.class.as_str());
    push_str(out, "]: ");
    push_ref(out, &l.from);
    push_str(out, " -> ");
    match &l.to {
        Some(t) => push_ref(out, t),
        None => push_str(out, "(open end)"),
    }
    push_line_end(out);
    assert(out@ =~= start + line_dump(id@, l@));
}

fn push_instrument(out: &mut String, id: &String, x: &crate::model::Instrument)
    ensures
        final(out)@ == old(out)@ + instrument_dump(id@, x@),
{
    let ghost start = out@;
    push_str(out, "  ");
    push_str(out, id.as_str());
    push_str(out, " [");
    push_str(out, x.instr_type.as_str());
    push_str(out, "]");
    push_line_end(out);
    let ghost a = out@;
    if let Some(attach) = &x.attach {
        push_str(out, "    attach: ");
        push_ref(out, attach);
        push_line_end(out);
    }
    assert(out@ =~= start + instrument_dump(id@, x@));
}

fn push_signal(out: &mut String, id: &String, s: &crate::model::Signal)
    ensures
        final(out)@ == old(out)@ + signal_dump(id@, s@),
{
    let ghost start = out@;
    push_str(out, "  ");
    push_str(out, id.as_str());
    push_str(out, " [");
    push_str(out, s.sig_type.as_str());
    push_str(out, "]: ");
    push_ref(out, &s.from);
    push_str(out, " -> ");
    push_ref(out, &s.to);
    push_line_end(out);
    assert(out@ =~= start + signal_dump(id@, s@));
}


fn push_equipment_section(out: &mut String, m: &IdMap<crate::model::Equipment>)
    requires
        m.wf(),
    ensures
        final(out)@ == old(out)@ + entries_dump(entries_view(m.entries()), equipment_dumps()),
{
    let ghost es = entries_view(m.entries());
    let ghost start = out@;
    let n = m.len();
    assert(es.subrange(0, 0) =~= Seq::<(Seq<char>, EquipmentV)>::empty());
    assert(start + Seq::<char>::empty() =~= start);
    let mut i: usize = 0;
    while i < n
        invariant
            m.wf(),
            es == entries_view(m.entries()),
            n == es.len(),
            i <= n,
            out@ == start + entries_dump(es.subrange(0, i as int), equipment_dumps()),
        decreases n - i,
    {
        match m.get_index(i) {
            Some((id, x)) => {
                let ghost mid = out@;
                push_equipment(out, id, x);
                proof {
                    let post = es.subrange(0, i + 1);
                    assert(post.drop_last() =~= es.subrange(0, i as int));
                    assert(post.last() == (id@, x@));
                    assert(out@ =~= start + entries_dump(post, equipment_dumps()));
                }
            },
            None => {},
        }
        i = i + 1;
    }
    assert(es.subrange(0, i as int) =~= es);
}

fn push_valves(out: &mut String, m: &IdMap<crate::model::Valve>)
    requires
        m.wf(),
    ensures
        final(out)@ == old(out)@ + entries_dump(entries_view(m.entries()), valve_dumps()),
{
    let ghost es = entries_view(m.entries());
    let ghost start = out@;
    let n = m.len();
    assert(es.subrange(0, 0) =~= Seq::<(Seq<char>, ValveV)>::empty());
    assert(start + Seq::<char>::empty() =~= start);
    let mut i: usize = 0;
    while i < n
        invariant
            m.wf(),
            es == entries_view(m.entries()),
            n == es.len(),
            i <= n,
            out@ == start + entries_dump(es.subrange(0, i as int), valve_dumps()),
        decreases n - i,
    {
        match m.get_index(i) {
            Some((id, x)) => {
                let ghost mid = out@;
                push_valve(out, id, x);
                proof {
                    let post = es.subrange(0, i + 1);
                    assert(post.drop_last() =~= es.subrange(0, i as int));
                    assert(post.last() == (id@, x@));
                    assert(out@ =~= start + entries_dump(post, valve_dumps()));
                }
            },
            None => {},
        }
        i = i + 1;
    }
    assert(es.subrange(0, i as int) =~= es);
}

fn push_lines(out: &mut String, m: &IdMap<crate::model::Line>)
    requires
        m.wf(),
    ensures
        final(out)@ == old(out)@ + entries_dump(entries_view(m.entries()), line_dumps()),
{
    let ghost es = entries_view(m.entries());
    let ghost start = out@;
    let n = m.len();
    assert(es.subrange(0, 0) =~= Seq::<(Seq<char>, LineV)>::empty());
    assert(start + Seq::<char>::empty() =~= start);
    let mut i: usize = 0;
    while i < n
        invariant
            m.wf(),
            es == entries_view(m.entries()),
            n == es.len(),
            i <= n,
            out@ == start + entries_dump(es.subrange(0, i as int), line_dumps()),
        decreases n - i,
    {
        match m.get_index(i) {
            Some((id, x)) => {
                let ghost mid = out@;
                push_line(out, id, x);
                proof {
                    let post = es.subrange(0, i + 1);
                    assert(post.drop_last() =~= es.subrange(0, i as int));
                    assert(post.last() == (id@, x@));
                    assert(out@ =~= start + entries_dump(post, line_dumps()));
                }
            },
            None => {},
        }
        i = i + 1;
    }
    assert(es.subrange(0, i as int) =~= es);
}

fn push_instruments(out: &mut String, m: &IdMap<crate::model::Instrument>)
    requires
        m.wf(),
    ensures
        final(out)@ == old(out)@ + entries_dump(entries_view(m.entries()), instrument_dumps()),
{
    let ghost es = entries_view(m.entries());
    let ghost start = out@;
    let n = m.len();
    assert(es.subrange(0, 0) =~= Seq::<(Seq<char>, InstrumentV)>::empty());
    assert(start + Seq::<char>::empty() =~= start);
    let mut i: usize = 0;
    while i < n
        invariant
            m.wf(),
            es == entries_view(m.entries()),
            n == es.len(),
            i <= n,
            out@ == start + entries_dump(es.subrange(0, i as int), instrument_dumps()),
        decreases n - i,
    {
        match m.get_index(i) {
            Some((id, x)) => {
                let ghost mid = out@;
                push_instrument(out, id, x);
                proof {
                    let post = es.subrange(0, i + 1);
                    assert(post.drop_last() =~= es.subrange(0, i as int));
                    assert(post.last() == (id@, x@));
                    assert(out@ =~= start + entries_dump(post, instrument_dumps()));
                }
            },
            None => {},
        }
        i = i + 1;
    }
    assert(es.subrange(0, i as int) =~= es);
}

fn push_signals(out: &mut String, m: &IdMap<crate::model::Signal>)
    requires
        m.wf(),
    ensures
        final(out)@ == old(out)@ + entries_dump(entries_view(m.entries()), signal_dumps()),
{
    let ghost es = entries_view(m.entries());
    let ghost start = out@;
    let n = m.len();
    assert(es.subrange(0, 0) =~= Seq::<(Seq<char>, SignalV)>::empty());
    assert(start + Seq::<char>::empty() =~= start);
    let mut i: usize = 0;
    while i < n
        invariant
            m.wf(),
            es == entries_view(m.entries()),
            n == es.len(),
            i <= n,
            out@ == start + entries_dump(es.subrange(0, i as int), signal_dumps()),
        decreases n - i,
    {
        match m.get_index(i) {
            Some((id, x)) => {
                let ghost mid = out@;
                push_signal(out, id, x);
                proof {
                    let post = es.subrange(0, i + 1);
                    assert(post.drop_last() =~= es.subrange(0, i as int));
                    assert(post.last() == (id@, x@));
                    assert(out@ =~= start + entries_dump(post, signal_dumps()));
                }
            },
            None => {},
        }
        i = i + 1;
    }
    assert(es.subrange(0, i as int) =~= es);
}

/// The dump of a diagram read from `input`.
pub fn dump_diagram(input: &str, diagram: &Diagram) -> (r: String)
    requires
        diagram.wf(),
    ensures
        r@ == dump_text(input@, diagram@),
{
    let mut out = string_of("# Diagram dump for ");
    push_str(&mut out, input);
    push_line_end(&mut out);
    push_line_end(&mut out);
    let ghost a = out@;
    push_heading(&mut out, "Equipment", diagram.equipment.len());
    push_equipment_section(&mut out, &diagram.equipment);
    push_line_end(&mut out);
    let ghost b = out@;
    push_heading(&mut out, "Valves", diagram.valves.len());
    push_valves(&mut out, &diagram.valves);
    push_line_end(&mut out);
    let ghost c = out@;
    push_heading(&mut out, "Lines", diagram.lines.len());
    push_lines(&mut out, &diagram.lines);
    push_line_end(&mut out);
    let ghost d = out@;
    push_heading(&mut out, "Instruments", diagram.instruments.len());
    push_instruments(&mut out, &diagram.instruments);
    push_line_end(&mut out);
    let ghost e = out@;
    push_heading(&mut out, "Signals", diagram.signals.len());
    push_signals(&mut out, &diagram.signals);
    assert(out@ =~= dump_text(input@, diagram@));
    out
}

/// Whether `part` occurs in `text` as a contiguous piece.
pub open spec fn occurs_in(part: Seq<char>, text: Seq<char>) -> bool {
    exists|a: int| 0 <= a && a + part.len() <= text.len() && #[trigger] text.subrange(a, a + part.len()) == part
}

proof fn lemma_occurs_concat(part: Seq<char>, x: Seq<char>, y: Seq<char>)
    ensures
        occurs_in(part, y) ==> occurs_in(part, x + y),
        occurs_in(part, x) ==> occurs_in(part, x + y),
{
    if occurs_in(part, y) {
        let a = choose|a: int| 0 <= a && a + part.len() <= y.len() && #[trigger] y.subrange(a, a + part.len()) == part;
        assert((x + y).subrange(x.len() + a, x.len() + a + part.len()) =~= part);
    }
    if occurs_in(part, x) {
        let a = choose|a: int| 0 <= a && a + part.len() <= x.len() && #[trigger] x.subrange(a, a + part.len()) == part;
        assert((x + y).subrange(a, a + part.len()) =~= part);
    }
}

proof fn lemma_occurs_self(part: Seq<char>)
    ensures
        occurs_in(part, part),
{
    let a: int = 0;
    assert(part.subrange(a, a + part.len()) =~= part);
}

/// Each entry's dump occurs in the dump of all entries.
proof fn lemma_entry_dump_occurs<T>(es: Seq<(Seq<char>, T)>, f: spec_fn(Seq<char>, T) -> Seq<char>, j: int, part: Seq<char>)
    requires
        0 <= j < es.len(),
        occurs_in(part, f(es[j].0, es[j].1)),
    ensures
        occurs_in(part, entries_dump(es, f)),
    decreases es.len(),
{
    if j == es.len() - 1 {
        lemma_occurs_concat(part, entries_dump(es.drop_last(), f), f(es.last().0, es.last().1));
    } else {
        assert(es.drop_last()[j] == es[j]);
        lemma_entry_dump_occurs(es.drop_last(), f, j, part);
        lemma_occurs_concat(part, entries_dump(es.drop_last(), f), f(es.last().0, es.last().1));
    }
}

/// The dump shows every valve with its type, and the actuator and fail
/// action of each valve that has them, each on a line of its own.
pub proof fn lemma_dump_shows_valves(input: Seq<char>, g: DiagramV, j: int)
    requires
        0 <= j < g.valves.len(),
    ensures
        occurs_in("  "@ + g.valves[j].0 + " ["@ + g.valves[j].1.valve_type + "]\n"@, dump_text(input, g)),
        g.valves[j].1.actuator matches Some(a) ==> occurs_in("    actuator: "@ + a + "\n"@, dump_text(input, g)),
        g.valves[j].1.fail matches Some(f) ==> occurs_in("    fail: "@ + f + "\n"@, dump_text(input, g)),
{
    reveal_strlit("]\n");
    reveal_strlit("]");
    reveal_strlit("\n");
    let id = g.valves[j].0;
    let v = g.valves[j].1;
    let head = ln("  "@ + id + " ["@ + v.valve_type + "]"@);
    let act = match v.actuator {
        Some(a) => ln("    actuator: "@ + a),
        None => Seq::<char>::empty(),
    };
    let fl = match v.fail {
        Some(f) => ln("    fail: "@ + f),
        None => Seq::<char>::empty(),
    };
    let vd = valve_dump(id, v);
    assert(vd == head + act + fl);
    assert(valve_dumps()(id, v) == vd);
    let vs = entries_dump(g.valves, valve_dumps());
    let h2 = "  "@ + id + " ["@ + v.valve_type + "]\n"@;
    assert(head =~= h2);
    lemma_occurs_self(h2);
    lemma_occurs_concat(h2, head, act);
    lemma_occurs_concat(h2, head + act, fl);
    lemma_entry_dump_occurs(g.valves, valve_dumps(), j, h2);
    lemma_section_occurs(h2, input, g);
    if let Some(a) = v.actuator {
        let l = "    actuator: "@ + a + "\n"@;
        assert(act =~= l);
        lemma_occurs_self(l);
        lemma_occurs_concat(l, head, act);
        lemma_occurs_concat(l, head + act, fl);
        lemma_entry_dump_occurs(g.valves, valve_dumps(), j, l);
        lemma_section_occurs(l, input, g);
    }
    if let Some(f) = v.fail {
        let l = "    fail: "@ + f + "\n"@;
        assert(fl =~= l);
        lemma_occurs_self(l);
        lemma_occurs_concat(l, head + act, fl);
        lemma_entry_dump_occurs(g.valves, valve_dumps(), j, l);
        lemma_section_occurs(l, input, g);
    }
}

proof fn lemma_occurs_mid(part: Seq<char>, a: Seq<char>, b: Seq<char>, c: Seq<char>)
    requires
        occurs_in(part, b),
    ensures
        occurs_in(part, a + b + c),
{
    lemma_occurs_concat(part, a, b);
    lemma_occurs_concat(part, a + b, c);
}

/// What occurs in a section's entries occurs in the dump.
proof fn lemma_section_occurs(part: Seq<char>, input: Seq<char>, g: DiagramV)
    ensures
        occurs_in(part, entries_dump(g.equipment, equipment_dumps())) ==> occurs_in(part, dump_text(input, g)),
        occurs_in(part, entries_dump(g.valves, valve_dumps())) ==> occurs_in(part, dump_text(input, g)),
        occurs_in(part, entries_dump(g.lines, line_dumps())) ==> occurs_in(part, dump_text(input, g)),
        occurs_in(part, entries_dump(g.instruments, instrument_dumps())) ==> occurs_in(part, dump_text(input, g)),
        occurs_in(part, entries_dump(g.signals, signal_dumps())) ==> occurs_in(part, dump_text(input, g)),
{
    let t0 = ln("# Diagram dump for "@ + input);
    let h0 = heading("Equipment"@, g.equipment.len());
    let e = entries_dump(g.equipment, equipment_dumps());
    let b = ln(Seq::empty());
    let h1 = heading("Valves"@, g.valves.len());
    let v = entries_dump(g.valves, valve_dumps());
    let h2 = heading("Lines"@, g.lines.len());
    let l = entries_dump(g.lines, line_dumps());
    let h3 = heading("Instruments"@, g.instruments.len());
    let x = entries_dump(g.instruments, instrument_dumps());
    let h4 = heading("Signals"@, g.signals.len());
    let sg = entries_dump(g.signals, signal_dumps());
    let d = dump_text(input, g);
    let p0 = t0;
    let p1 = p0 + b;
    let p2 = p1 + h0;
    let p3 = p2 + e;
    let p4 = p3 + b;
    let p5 = p4 + h1;
    let p6 = p5 + v;
    let p7 = p6 + b;
    let p8 = p7 + h2;
    let p9 = p8 + l;
    let p10 = p9 + b;
    let p11 = p10 + h3;
    let p12 = p11 + x;
    let p13 = p12 + b;
    let p14 = p13 + h4;
    let p15 = p14 + sg;
    assert(d == p15);
    if occurs_in(part, e) {
        lemma_occurs_concat(part, p2, e);
        lemma_occurs_concat(part, p3, b);
        lemma_occurs_concat(part, p4, h1);
        lemma_occurs_concat(part, p5, v);
        lemma_occurs_concat(part, p6, b);
        lemma_occurs_concat(part, p7, h2);
        lemma_occurs_concat(part, p8, l);
        lemma_occurs_concat(part, p9, b);
        lemma_occurs_concat(part, p10, h3);
        lemma_occurs_concat(part, p11, x);
        lemma_occurs_concat(part, p12, b);
        lemma_occurs_concat(part, p13, h4);
        lemma_occurs_concat(part, p14, sg);
    }
    if occurs_in(part, v) {
        lemma_occurs_concat(part, p5, v);
        lemma_occurs_concat(part, p6, b);
        lemma_occurs_concat(part, p7, h2);
        lemma_occurs_concat(part, p8, l);
        lemma_occurs_concat(part, p9, b);
        lemma_occurs_concat(part, p10, h3);
        lemma_occurs_concat(part, p11, x);
        lemma_occurs_concat(part, p12, b);
        lemma_occurs_concat(part, p13, h4);
        lemma_occurs_concat(part, p14, sg);
    }
    if occurs_in(part, l) {
        lemma_occurs_concat(part, p8, l);
        lemma_occurs_concat(part, p9, b);
        lemma_occurs_concat(part, p10, h3);
        lemma_occurs_concat(part, p11, x);
        lemma_occurs_concat(part, p12, b);
        lemma_occurs_concat(part, p13, h4);
        lemma_occurs_concat(part, p14, sg);
    }
    if occurs_in(part, x) {
        lemma_occurs_concat(part, p11, x);
        lemma_occurs_concat(part, p12, b);
        lemma_occurs_concat(part, p13, h4);
        lemma_occurs_concat(part, p14, sg);
    }
    if occurs_in(part, sg) {
        lemma_occurs_concat(part, p14, sg);
    }
}

/// A piece of a concatenation of three occurs in it.
proof fn lemma_occurs_in3(a: Seq<char>, b: Seq<char>, c: Seq<char>)
    ensures
        occurs_in(a, a + b + c),
        occurs_in(b, a + b + c),
        occurs_in(c, a + b + c),
{
    lemma_occurs_self(a);
    lemma_occurs_self(b);
    lemma_occurs_self(c);
    lemma_occurs_concat(a, a, b);
    lemma_occurs_concat(a, a + b, c);
    lemma_occurs_concat(b, a, b);
    lemma_occurs_concat(b, a + b, c);
    lemma_occurs_concat(c, a + b, c);
}

/// The dump shows every piece of equipment with its type, its explicit
/// position and its ports; every line with its class and ends; every
/// instrument with its type and attachment; every signal with its type and
/// ends; each on a line of its own.
pub proof fn lemma_dump_shows_objects(input: Seq<char>, g: DiagramV, j: int)
    ensures
        0 <= j < g.equipment.len() ==> {
            let (id, e) = g.equipment[j];
            &&& occurs_in(ln("  "@ + id + " ["@ + e.equip_type + "]"@), dump_text(input, g))
            &&& e.pos matches Some(p) ==> occurs_in(
                ln("    at: ("@ + dec_int(p.x as int) + ", "@ + dec_int(p.y as int) + ")"@),
                dump_text(input, g),
            )
            &&& e.ports.len() > 0 ==> occurs_in(ln("    ports: "@ + ports_text(e.ports)), dump_text(input, g))
        },
        0 <= j < g.lines.len() ==> {
            let (id, l) = g.lines[j];
            occurs_in(
                ln("  "@ + id + " ["@ + l.class + "]: "@ + ref_text(l.from) + " -> "@ + match l.to {
                    Some(t) => ref_text(t),
                    None => "(open end)"@,
                }),
                dump_text(input, g),
            )
        },
        0 <= j < g.instruments.len() ==> {
            let (id, x) = g.instruments[j];
            &&& occurs_in(ln("  "@ + id + " ["@ + x.instr_type + "]"@), dump_text(input, g))
            &&& x.attach matches Some(a) ==> occurs_in(ln("    attach: "@ + ref_text(a)), dump_text(input, g))
        },
        0 <= j < g.signals.len() ==> {
            let (id, s) = g.signals[j];
            occurs_in(
                ln("  "@ + id + " ["@ + s.sig_type + "]: "@ + ref_text(s.from) + " -> "@ + ref_text(s.to)),
                dump_text(input, g),
            )
        },
{
    if 0 <= j < g.equipment.len() {
        let (id, e) = g.equipment[j];
        let head = ln("  "@ + id + " ["@ + e.equip_type + "]"@);
        let at = match e.pos {
            Some(p) => ln("    at: ("@ + dec_int(p.x as int) + ", "@ + dec_int(p.y as int) + ")"@),
            None => Seq::<char>::empty(),
        };
        let lab = match e.label {
            Some(l) => ln("    label: "@ + crate::text::str_debug(l)),
            None => Seq::<char>::empty(),
        };
        let pt = if e.ports.len() > 0 {
            ln("    ports: "@ + ports_text(e.ports))
        } else {
            Seq::<char>::empty()
        };
        let ed = equipment_dump(id, e);
        assert(ed == head + at + lab + pt);
        assert(equipment_dumps()(id, e) == ed);
        lemma_occurs_in3(head, at, lab + pt);
        lemma_occurs_in3(head + at, lab, pt);
        assert(head + at + (lab + pt) =~= ed);
        assert(head + at + lab + pt =~= ed);
        lemma_occurs_concat(head, head + at + lab, pt);
        lemma_occurs_concat(at, head + at + lab, pt);
        lemma_occurs_concat(head, head + at, lab);
        lemma_occurs_concat(at, head + at, lab);
        lemma_occurs_concat(head, head, at);
        lemma_occurs_concat(at, head, at);
        lemma_occurs_self(head);
        lemma_occurs_self(at);
        lemma_occurs_self(pt);
        lemma_occurs_concat(pt, head + at + lab, pt);
        lemma_entry_dump_occurs(g.equipment, equipment_dumps(), j, head);
        lemma_entry_dump_occurs(g.equipment, equipment_dumps(), j, at);
        lemma_entry_dump_occurs(g.equipment, equipment_dumps(), j, pt);
        lemma_section_occurs(head, input, g);
        lemma_section_occurs(at, input, g);
        lemma_section_occurs(pt, input, g);
    }
    if 0 <= j < g.lines.len() {
        let (id, l) = g.lines[j];
        let ld = line_dump(id, l);
        assert(line_dumps()(id, l) == ld);
        lemma_occurs_self(ld);
        lemma_entry_dump_occurs(g.lines, line_dumps(), j, ld);
        lemma_section_occurs(ld, input, g);
    }
    if 0 <= j < g.instruments.len() {
        let (id, x) = g.instruments[j];
        let head = ln("  "@ + id + " ["@ + x.instr_type + "]"@);
        let at = match x.attach {
            Some(a) => ln("    attach: "@ + ref_text(a)),
            None => Seq::<char>::empty(),
        };
        let xd = instrument_dump(id, x);
        assert(xd == head + at);
        assert(instrument_dumps()(id, x) == xd);
        lemma_occurs_self(head);
        lemma_occurs_self(at);
        lemma_occurs_concat(head, head, at);
        lemma_occurs_concat(at, head, at);
        lemma_entry_dump_occurs(g.instruments, instrument_dumps(), j, head);
        lemma_entry_dump_occurs(g.instruments, instrument_dumps(), j, at);
        lemma_section_occurs(head, input, g);
        lemma_section_occurs(at, input, g);
    }
    if 0 <= j < g.signals.len() {
        let (id, s) = g.signals[j];
        let sd = signal_dump(id, s);
        assert(signal_dumps()(id, s) == sd);
        lemma_occurs_self(sd);
        lemma_entry_dump_occurs(g.signals, signal_dumps(), j, sd);
        lemma_section_occurs(sd, input, g);
    }
}

/// The dump opens with the name of its input and heads each of its five
/// sections with the number of objects in it.
#[verifier::rlimit(40)]
pub proof fn lemma_dump_shows_counts(input: Seq<char>, g: DiagramV)
    ensures
        occurs_in(ln("# Diagram dump for "@ + input), dump_text(input, g)),
        occurs_in(ln("## "@ + "Equipment"@ + " ("@ + dec_nat(g.equipment.len()) + " items)"@), dump_text(input, g)),
        occurs_in(ln("## "@ + "Valves"@ + " ("@ + dec_nat(g.valves.len()) + " items)"@), dump_text(input, g)),
        occurs_in(ln("## "@ + "Lines"@ + " ("@ + dec_nat(g.lines.len()) + " items)"@), dump_text(input, g)),
        occurs_in(ln("## "@ + "Instruments"@ + " ("@ + dec_nat(g.instruments.len()) + " items)"@), dump_text(input, g)),
        occurs_in(ln("## "@ + "Signals"@ + " ("@ + dec_nat(g.signals.len()) + " items)"@), dump_text(input, g)),
{
    let t0 = ln("# Diagram dump for "@ + input);
    let h0 = heading("Equipment"@, g.equipment.len());
    let e = entries_dump(g.equipment, equipment_dumps());
    let b = ln(Seq::empty());
    let h1 = heading("Valves"@, g.valves.len());
    let v = entries_dump(g.valves, valve_dumps());
    let h2 = heading("Lines"@, g.lines.len());
    let l = entries_dump(g.lines, line_dumps());
    let h3 = heading("Instruments"@, g.instruments.len());
    let x = entries_dump(g.instruments, instrument_dumps());
    let h4 = heading("Signals"@, g.signals.len());
    let sg = entries_dump(g.signals, signal_dumps());
    let d = dump_text(input, g);
    let p0 = t0;
    let p1 = p0 + b;
    let p2 = p1 + h0;
    let p3 = p2 + e;
    let p4 = p3 + b;
    let p5 = p4 + h1;
    let p6 = p5 + v;
    let p7 = p6 + b;
    let p8 = p7 + h2;
    let p9 = p8 + l;
    let p10 = p9 + b;
    let p11 = p10 + h3;
    let p12 = p11 + x;
    let p13 = p12 + b;
    let p14 = p13 + h4;
    let p15 = p14 + sg;
    assert(d == p15);
    assert(occurs_in(t0, d)) by {
        lemma_occurs_self(t0);
        lemma_occurs_concat(t0, p0, b);
        lemma_occurs_concat(t0, p1, h0);
        lemma_occurs_concat(t0, p2, e);
        lemma_occurs_concat(t0, p3, b);
        lemma_occurs_concat(t0, p4, h1);
        lemma_occurs_concat(t0, p5, v);
        lemma_occurs_concat(t0, p6, b);
        lemma_occurs_concat(t0, p7, h2);
        lemma_occurs_concat(t0, p8, l);
        lemma_occurs_concat(t0, p9, b);
        lemma_occurs_concat(t0, p10, h3);
        lemma_occurs_concat(t0, p11, x);
        lemma_occurs_concat(t0, p12, b);
        lemma_occurs_concat(t0, p13, h4);
        lemma_occurs_concat(t0, p14, sg);
    }
    assert(occurs_in(h0, d)) by {
        lemma_occurs_self(h0);
        lemma_occurs_concat(h0, p1, h0);
        lemma_occurs_concat(h0, p2, e);
        lemma_occurs_concat(h0, p3, b);
        lemma_occurs_concat(h0, p4, h1);
        lemma_occurs_concat(h0, p5, v);
        lemma_occurs_concat(h0, p6, b);
        lemma_occurs_concat(h0, p7, h2);
        lemma_occurs_concat(h0, p8, l);
        lemma_occurs_concat(h0, p9, b);
        lemma_occurs_concat(h0, p10, h3);
        lemma_occurs_concat(h0, p11, x);
        lemma_occurs_concat(h0, p12, b);
        lemma_occurs_concat(h0, p13, h4);
        lemma_occurs_concat(h0, p14, sg);
    }
    assert(occurs_in(h1, d)) by {
        lemma_occurs_self(h1);
        lemma_occurs_concat(h1, p4, h1);
        lemma_occurs_concat(h1, p5, v);
        lemma_occurs_concat(h1, p6, b);
        lemma_occurs_concat(h1, p7, h2);
        lemma_occurs_concat(h1, p8, l);
        lemma_occurs_concat(h1, p9, b);
        lemma_occurs_concat(h1, p10, h3);
        lemma_occurs_concat(h1, p11, x);
        lemma_occurs_concat(h1, p12, b);
        lemma_occurs_concat(h1, p13, h4);
        lemma_occurs_concat(h1, p14, sg);
    }
    assert(occurs_in(h2, d)) by {
        lemma_occurs_self(h2);
        lemma_occurs_concat(h2, p7, h2);
        lemma_occurs_concat(h2, p8, l);
        lemma_occurs_concat(h2, p9, b);
        lemma_occurs_concat(h2, p10, h3);
        lemma_occurs_concat(h2, p11, x);
        lemma_occurs_concat(h2, p12, b);
        lemma_occurs_concat(h2, p13, h4);
        lemma_occurs_concat(h2, p14, sg);
    }
    assert(occurs_in(h3, d)) by {
        lemma_occurs_self(h3);
        lemma_occurs_concat(h3, p10, h3);
        lemma_occurs_concat(h3, p11, x);
        lemma_occurs_concat(h3, p12, b);
        lemma_occurs_concat(h3, p13, h4);
        lemma_occurs_concat(h3, p14, sg);
    }
    assert(occurs_in(h4, d)) by {
        lemma_occurs_self(h4);
        lemma_occurs_concat(h4, p13, h4);
        lemma_occurs_concat(h4, p14, sg);
    }
}


/// The dump shows the label of every piece of equipment that has one.
pub proof fn lemma_dump_shows_equipment_labels(input: Seq<char>, g: DiagramV, j: int)
    ensures
        0 <= j < g.equipment.len() && g.equipment[j].1.label is Some ==> occurs_in(
            ln("    label: "@ + crate::text::str_debug(g.equipment[j].1.label->Some_0)),
            dump_text(input, g),
        ),
{
    if 0 <= j < g.equipment.len() && g.equipment[j].1.label is Some {
        let (id, eq) = g.equipment[j];
        let head = ln("  "@ + id + " ["@ + eq.equip_type + "]"@);
        let at = match eq.pos {
            Some(p) => ln("    at: ("@ + dec_int(p.x as int) + ", "@ + dec_int(p.y as int) + ")"@),
            None => Seq::<char>::empty(),
        };
        let lab = ln("    label: "@ + crate::text::str_debug(eq.label->Some_0));
        let pt = if eq.ports.len() > 0 {
            ln("    ports: "@ + ports_text(eq.ports))
        } else {
            Seq::<char>::empty()
        };
        let ed = equipment_dump(id, eq);
        assert(ed == head + at + lab + pt);
        assert(equipment_dumps()(id, eq) == ed);
        lemma_occurs_self(lab);
        lemma_occurs_mid(lab, head + at, lab, pt);
        lemma_entry_dump_occurs(g.equipment, equipment_dumps(), j, lab);
        lemma_section_occurs(lab, input, g);
    }
}

} // verus!
