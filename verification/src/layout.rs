//! The discrete side of layout: which side of a symbol a port sits on,
//! how ports share a side, which objects carry explicit positions and
//! which outline family a symbol has. The geometry itself is computed in
//! floating point by the drawing front end.

use vstd::prelude::*;
use crate::ast::DeclKind;
use crate::model::{
    Diagram, DiagramV, EquipmentV, GridPos, InstrumentV, LineV, ObjRef, Port, PortV, RefV, Side,
    SignalV, Valve, ValveV, distinct_keys, lemma_entries_view, lookup, ports_of, ports_view,
};
use crate::symbols::{equipment_key_of, equipment_symbol_key};
use crate::text::str_eq;

verus! {

/// Outline family of a symbol, for placing ports on the drawn surface.
#[derive(Debug, Clone, Copy, PartialEq, Eq, Structural)]
pub enum SymbolShape {
    /// Ports sit on the bounding box (default).
    Rect,
    /// Stadium/capsule outline with head radius h/2: side ports follow the
    /// head arc, top/bottom ports near the ends drop onto the shoulder.
    Capsule,
}

/// The side that a port's conventional name implies.
pub open spec fn side_of_port_name(n: Seq<char>) -> Option<Side> {
    if n == "in"@ || n == "inlet"@ || n == "west"@ {
        Some(Side::West)
    } else if n == "out"@ || n == "outlet"@ || n == "east"@ {
        Some(Side::East)
    } else if n == "top"@ || n == "north"@ || n == "vent"@ {
        Some(Side::North)
    } else if n == "bottom"@ || n == "south"@ || n == "drain"@ {
        Some(Side::South)
    } else {
        None
    }
}

/// Infer which side of a symbol a port sits on from its conventional name.
pub fn infer_port_side(name: &str) -> (r: Option<Side>)
    ensures
        r == side_of_port_name(name@),
{
    if str_eq(name, "in") || str_eq(name, "inlet") || str_eq(name, "west") {
        Some(Side::West)
    } else if str_eq(name, "out") || str_eq(name, "outlet") || str_eq(name, "east") {
        Some(Side::East)
    } else if str_eq(name, "top") || str_eq(name, "north") || str_eq(name, "vent") {
        Some(Side::North)
    } else if str_eq(name, "bottom") || str_eq(name, "south") || str_eq(name, "drain") {
        Some(Side::South)
    } else {
        None
    }
}

/// A port's side: the declared one, else the one its name implies.
pub open spec fn resolved_side(p: PortV) -> Option<Side> {
    match p.side {
        Some(s) => Some(s),
        None => side_of_port_name(p.name),
    }
}

fn port_side(p: &Port) -> (r: Option<Side>)
    ensures
        r == resolved_side(p@),
{
    match p.side {
        Some(s) => Some(s),
        None => infer_port_side(p.name.as_str()),
    }
}

pub open spec fn vertical(s: Side) -> bool {
    s == Side::North || s == Side::South
}

pub fn is_vertical_side(side: Side) -> (r: bool)
    ensures
        r == vertical(side),
{
    match side {
        Side::North | Side::South => true,
        _ => false,
    }
}

pub open spec fn opposite_side(s: Side) -> Side {
    match s {
        Side::East => Side::West,
        Side::West => Side::East,
        Side::North => Side::South,
        Side::South => Side::North,
    }
}

pub fn opposite(side: Side) -> (r: Side)
    ensures
        r == opposite_side(side),
{
    match side {
        Side::East => Side::West,
        Side::West => Side::East,
        Side::North => Side::South,
        Side::South => Side::North,
    }
}

/// Turning around twice faces the original side again, and turning around
/// keeps a side vertical or horizontal.
pub proof fn lemma_opposite(s: Side)
    ensures
        opposite_side(opposite_side(s)) == s,
        opposite_side(s) != s,
        vertical(opposite_side(s)) == vertical(s),
{
}

/// A valve sits in a vertical run when some port has a side and every port
/// with a side is on the north or south.
pub open spec fn vertical_valve(ps: Seq<PortV>) -> bool {
    &&& exists|i: int| 0 <= i < ps.len() && (#[trigger] resolved_side(ps[i])) is Some
    &&& forall|i: int|
        0 <= i < ps.len() ==> (#[trigger] resolved_side(ps[i]) matches Some(s) ==> vertical(s))
}

/// True when every sided port of the valve lies on north/south: it sits in
/// a vertical run and its symbol is drawn rotated 90°.
pub fn valve_is_vertical(v: &Valve) -> (r: bool)
    ensures
        r == vertical_valve(v@.ports),
{
    let ghost pv = ports_view(v.ports@);
    let mut any = false;
    let mut all = true;
    let mut i: usize = 0;
    while i < v.ports.len()
        invariant
            i <= v.ports@.len(),
            pv == ports_view(v.ports@),
            any == exists|j: int| 0 <= j < i && (#[trigger] resolved_side(pv[j])) is Some,
            all == forall|j: int| 0 <= j < i ==> (#[trigger] resolved_side(pv[j]) matches Some(s) ==> vertical(s)),
        decreases v.ports@.len() - i,
    {
        let s = port_side(&v.ports[i]);
        assert(v.ports@[i as int]@ == pv[i as int]);
        match s {
            Some(side) => {
                any = true;
                if !is_vertical_side(side) {
                    all = false;
                }
            },
            None => {},
        }
        i = i + 1;
    }
    any && all
}

/// The first port named `name`.
pub open spec fn first_port_named(ps: Seq<PortV>, name: Seq<char>) -> Option<PortV>
    decreases ps.len(),
{
    if ps.len() == 0 {
        None
    } else if ps[0].name == name {
        Some(ps[0])
    } else {
        first_port_named(ps.drop_first(), name)
    }
}

fn find_port<'a>(ports: &'a [Port], name: &str) -> (r: Option<&'a Port>)
    ensures
        match r {
            Some(p) => first_port_named(ports_view(ports@), name@) == Some(p@),
            None => first_port_named(ports_view(ports@), name@) is None,
        },
{
    let ghost pv = ports_view(ports@);
    assert(pv.subrange(0, pv.len() as int) =~= pv);
    let mut i: usize = 0;
    while i < ports.len()
        invariant
            i <= ports@.len(),
            pv == ports_view(ports@),
            first_port_named(pv, name@) == first_port_named(pv.subrange(i as int, pv.len() as int), name@),
        decreases ports@.len() - i,
    {
        let ghost rest = pv.subrange(i as int, pv.len() as int);
        assert(rest.drop_first() =~= pv.subrange(i + 1, pv.len() as int));
        assert(rest[0] == ports@[i as int]@);
        if str_eq(ports[i].name.as_str(), name) {
            return Some(&ports[i]);
        }
        i = i + 1;
    }
    assert(pv.subrange(i as int, pv.len() as int) =~= Seq::<PortV>::empty());
    None
}

/// The side of an endpoint's object that a connection leaves or enters
/// through: the declared side of the named port, else the side its name
/// implies, else east for a start and west for an end.
pub open spec fn endpoint_side_of(g: DiagramV, ep: RefV, is_from: bool) -> Side {
    let fallback = if is_from { Side::East } else { Side::West };
    match ep.port {
        None => fallback,
        Some(pn) => {
            let declared = match ports_of(g, ep.id) {
                Some(ps) => match first_port_named(ps, pn) {
                    Some(p) => p.side,
                    None => None,
                },
                None => None,
            };
            match declared {
                Some(s) => s,
                None => match side_of_port_name(pn) {
                    Some(s) => s,
                    None => fallback,
                },
            }
        },
    }
}

/// The side of `ep`'s object that the connection leaves/enters through.
pub fn endpoint_side(diagram: &Diagram, ep: &ObjRef, is_from: bool) -> (r: Side)
    requires
        diagram.wf(),
    ensures
        r == endpoint_side_of(diagram@, ep@, is_from),
{
    if let Some(pn) = &ep.port {
        if let Some(ports) = diagram.get_ports(ep.id.as_str()) {
            if let Some(p) = find_port(ports, pn.as_str()) {
                if let Some(s) = p.side {
                    return s;
                }
            }
        }
        if let Some(s) = infer_port_side(pn.as_str()) {
            return s;
        }
    }
    // Default flow direction: out of the east side, into the west side.
    if is_from {
        Side::East
    } else {
        Side::West
    }
}

/// Whether equipment `id` hangs from a north-side port of the object it
/// attaches to (a motor on top of a vessel, say); its label then goes above.
pub open spec fn mounted_above(g: DiagramV, id: Seq<char>) -> bool {
    match lookup(g.equipment, id) {
        Some(e) => match e.attach {
            Some(a) => a.port is Some && endpoint_side_of(g, a, true) == Side::North,
            None => false,
        },
        None => false,
    }
}

/// Whether equipment `id` is mounted on a north-side port.
pub fn is_mounted_above(diagram: &Diagram, id: &str) -> (r: bool)
    requires
        diagram.wf(),
    ensures
        r == mounted_above(diagram@, id@),
{
    proof {
        diagram.equipment.lemma_wf();
        lemma_entries_view(diagram.equipment.entries(), id@);
    }
    if let Some(e) = diagram.equipment.get(id) {
        if let Some(a) = &e.attach {
            if a.port.is_some() {
                let s = endpoint_side(diagram, a, true);
                return match s {
                    Side::North => true,
                    _ => false,
                };
            }
        }
    }
    false
}

// ---- Spare nozzles ----

/// Whether reference `r` names port `port` of object `id`.
pub open spec fn names_port(r: RefV, id: Seq<char>, port: Seq<char>) -> bool {
    r.id == id && r.port == Some(port)
}

/// Whether a line starts or ends at port `port` of `id`.
pub open spec fn line_uses(l: LineV, id: Seq<char>, port: Seq<char>) -> bool {
    names_port(l.from, id, port) || (l.to matches Some(t) && names_port(t, id, port))
}

/// Whether a signal starts or ends at port `port` of `id`.
pub open spec fn signal_uses(s: SignalV, id: Seq<char>, port: Seq<char>) -> bool {
    names_port(s.from, id, port) || names_port(s.to, id, port)
}

/// Whether an attachment is made at port `port` of `id`.
pub open spec fn attach_uses(a: Option<RefV>, id: Seq<char>, port: Seq<char>) -> bool {
    a matches Some(r) && names_port(r, id, port)
}

/// Whether some line, signal or attachment of an instrument or piece of
/// equipment uses port `port` of object `id`.
pub open spec fn port_used(g: DiagramV, id: Seq<char>, port: Seq<char>) -> bool {
    ||| exists|i: int| 0 <= i < g.lines.len() && line_uses(#[trigger] g.lines[i].1, id, port)
    ||| exists|i: int| 0 <= i < g.signals.len() && signal_uses(#[trigger] g.signals[i].1, id, port)
    ||| exists|i: int|
        0 <= i < g.instruments.len() && attach_uses((#[trigger] g.instruments[i]).1.attach, id, port)
    ||| exists|i: int|
        0 <= i < g.equipment.len() && attach_uses((#[trigger] g.equipment[i]).1.attach, id, port)
}

/// The unused ports among `ps` of object `id`, each with the id, in
/// declaration order.
pub open spec fn spare_of(g: DiagramV, id: Seq<char>, ps: Seq<PortV>) -> Seq<(Seq<char>, PortV)>
    decreases ps.len(),
{
    if ps.len() == 0 {
        Seq::empty()
    } else {
        spare_of(g, id, ps.drop_last()) + (if port_used(g, id, ps.last().name) {
            Seq::empty()
        } else {
            seq![(id, ps.last())]
        })
    }
}

/// The unused equipment ports of `es`, equipment after equipment.
pub open spec fn spare_in(g: DiagramV, es: Seq<(Seq<char>, EquipmentV)>) -> Seq<(Seq<char>, PortV)>
    decreases es.len(),
{
    if es.len() == 0 {
        Seq::empty()
    } else {
        spare_in(g, es.drop_last()) + spare_of(g, es.last().1.id, es.last().1.ports)
    }
}

/// Every equipment port that no line, signal or attachment uses, in
/// declaration order: these are drawn as blind spare nozzles.
pub open spec fn spare_ports_of(g: DiagramV) -> Seq<(Seq<char>, PortV)> {
    spare_in(g, g.equipment)
}

/// Ids with ports, by their views.
pub open spec fn id_ports_view(v: Seq<(String, Port)>) -> Seq<(Seq<char>, PortV)> {
    v.map_values(|p: (String, Port)| (p.0@, p.1@))
}

fn ref_names(r: &ObjRef, id: &str, port: &str) -> (b: bool)
    ensures
        b == names_port(r@, id@, port@),
{
    if !str_eq(r.id.as_str(), id) {
        return false;
    }
    match &r.port {
        Some(p) => str_eq(p.as_str(), port),
        None => false,
    }
}

fn attach_names(a: &Option<ObjRef>, id: &str, port: &str) -> (b: bool)
    ensures
        b == attach_uses(crate::model::oref(*a), id@, port@),
{
    match a {
        Some(r) => ref_names(r, id, port),
        None => false,
    }
}

/// Whether port `port` of `id` is used by a line, signal or attachment.
pub fn is_port_used(diagram: &Diagram, id: &str, port: &str) -> (r: bool)
    requires
        diagram.wf(),
    ensures
        r == port_used(diagram@, id@, port@),
{
    let ghost g = diagram@;
    proof {
        diagram.lines.lemma_wf();
        diagram.signals.lemma_wf();
        diagram.instruments.lemma_wf();
        diagram.equipment.lemma_wf();
    }
    let lines = diagram.lines.values();
    let mut i: usize = 0;
    while i < lines.len()
        invariant
            g == diagram@,
            i <= lines@.len(),
            lines@.len() == g.lines.len(),
            forall|j: int| 0 <= j < lines@.len() ==> #[trigger] g.lines[j].1 == lines@[j]@,
            forall|j: int| 0 <= j < i ==> !line_uses(#[trigger] g.lines[j].1, id@, port@),
        decreases lines@.len() - i,
    {
        let l = &lines[i];
        assert(g.lines[i as int].1 == l@);
        let mut hit = ref_names(&l.from, id, port);
        if let Some(t) = &l.to {
            if ref_names(t, id, port) {
                hit = true;
            }
        }
        if hit {
            return true;
        }
        i = i + 1;
    }
    let signals = diagram.signals.values();
    let mut i: usize = 0;
    while i < signals.len()
        invariant
            g == diagram@,
            i <= signals@.len(),
            signals@.len() == g.signals.len(),
            forall|j: int| 0 <= j < signals@.len() ==> #[trigger] g.signals[j].1 == signals@[j]@,
            forall|j: int| 0 <= j < g.lines.len() ==> !line_uses(#[trigger] g.lines[j].1, id@, port@),
            forall|j: int| 0 <= j < i ==> !signal_uses(#[trigger] g.signals[j].1, id@, port@),
        decreases signals@.len() - i,
    {
        let s = &signals[i];
        assert(g.signals[i as int].1 == s@);
        if ref_names(&s.from, id, port) || ref_names(&s.to, id, port) {
            return true;
        }
        i = i + 1;
    }
    let instruments = diagram.instruments.values();
    let mut i: usize = 0;
    while i < instruments.len()
        invariant
            g == diagram@,
            i <= instruments@.len(),
            instruments@.len() == g.instruments.len(),
            forall|j: int| 0 <= j < instruments@.len() ==> #[trigger] g.instruments[j].1 == instruments@[j]@,
            forall|j: int| 0 <= j < g.lines.len() ==> !line_uses(#[trigger] g.lines[j].1, id@, port@),
            forall|j: int| 0 <= j < g.signals.len() ==> !signal_uses(#[trigger] g.signals[j].1, id@, port@),
            forall|j: int| 0 <= j < i ==> !attach_uses((#[trigger] g.instruments[j]).1.attach, id@, port@),
        decreases instruments@.len() - i,
    {
        let x = &instruments[i];
        assert(g.instruments[i as int].1 == x@);
        if attach_names(&x.attach, id, port) {
            return true;
        }
        i = i + 1;
    }
    let equipment = diagram.equipment.values();
    let mut i: usize = 0;
    while i < equipment.len()
        invariant
            g == diagram@,
            i <= equipment@.len(),
            equipment@.len() == g.equipment.len(),
            forall|j: int| 0 <= j < equipment@.len() ==> #[trigger] g.equipment[j].1 == equipment@[j]@,
            forall|j: int| 0 <= j < g.lines.len() ==> !line_uses(#[trigger] g.lines[j].1, id@, port@),
            forall|j: int| 0 <= j < g.signals.len() ==> !signal_uses(#[trigger] g.signals[j].1, id@, port@),
            forall|j: int| 0 <= j < g.instruments.len() ==> !attach_uses((#[trigger] g.instruments[j]).1.attach, id@, port@),
            forall|j: int| 0 <= j < i ==> !attach_uses((#[trigger] g.equipment[j]).1.attach, id@, port@),
        decreases equipment@.len() - i,
    {
        let x = &equipment[i];
        assert(g.equipment[i as int].1 == x@);
        if attach_names(&x.attach, id, port) {
            return true;
        }
        i = i + 1;
    }
    false
}

/// Every equipment port that nothing uses, with its equipment's id, in
/// declaration order.
pub fn spare_ports(diagram: &Diagram) -> (r: Vec<(String, Port)>)
    requires
        diagram.wf(),
    ensures
        id_ports_view(r@) == spare_ports_of(diagram@),
{
    let ghost g = diagram@;
    proof {
        diagram.equipment.lemma_wf();
    }
    let equipment = diagram.equipment.values();
    let mut out: Vec<(String, Port)> = Vec::new();
    let mut i: usize = 0;
    assert(g.equipment.subrange(0, 0) =~= Seq::<(Seq<char>, EquipmentV)>::empty());
    assert(id_ports_view(out@) =~= Seq::<(Seq<char>, PortV)>::empty());
    while i < equipment.len()
        invariant
            g == diagram@,
            diagram.wf(),
            i <= equipment@.len(),
            equipment@.len() == g.equipment.len(),
            forall|j: int| 0 <= j < equipment@.len() ==> #[trigger] g.equipment[j].1 == equipment@[j]@,
            id_ports_view(out@) == spare_in(g, g.equipment.subrange(0, i as int)),
        decreases equipment@.len() - i,
    {
        let eq = &equipment[i];
        let ghost before = id_ports_view(out@);
        let ghost pv = ports_view(eq.ports@);
        assert(g.equipment[i as int].1 == eq@);
        assert(pv.subrange(0, 0) =~= Seq::<PortV>::empty());
        assert(before + Seq::<(Seq<char>, PortV)>::empty() =~= before);
        let mut k: usize = 0;
        while k < eq.ports.len()
            invariant
                g == diagram@,
                diagram.wf(),
                k <= eq.ports@.len(),
                pv == ports_view(eq.ports@),
                id_ports_view(out@) == before + spare_of(g, eq.id@, pv.subrange(0, k as int)),
            decreases eq.ports@.len() - k,
        {
            let p = &eq.ports[k];
            let ghost mid = id_ports_view(out@);
            assert(pv[k as int] == p@);
            assert(pv.subrange(0, k + 1).drop_last() =~= pv.subrange(0, k as int));
            assert(pv.subrange(0, k + 1).last() == p@);
            if !is_port_used(diagram, eq.id.as_str(), p.name.as_str()) {
                out.push((eq.id.clone(), Port { name: p.name.clone(), side: p.side }));
                assert(id_ports_view(out@) =~= mid.push((eq.id@, p@)));
            } else {
                assert(id_ports_view(out@) =~= mid);
            }
            assert(id_ports_view(out@) =~= before + spare_of(g, eq.id@, pv.subrange(0, k + 1)));
            k = k + 1;
        }
        assert(pv.subrange(0, k as int) =~= pv);
        assert(g.equipment.subrange(0, i + 1).drop_last() =~= g.equipment.subrange(0, i as int));
        assert(g.equipment.subrange(0, i + 1).last().1 == eq@);
        i = i + 1;
    }
    assert(g.equipment.subrange(0, i as int) =~= g.equipment);
    out
}

/// Where a port sits among the ports on its side.
pub struct PortSlot {
    /// The side the port is on.
    pub side: Side,
    /// Its position among the ports on that side, in declaration order.
    pub index: Option<usize>,
    /// How many ports share that side.
    pub count: usize,
}

/// The side of port `name`: the side of the first declared port of that
/// name, else the side its name implies.
pub open spec fn slot_side(ps: Seq<PortV>, name: Seq<char>) -> Option<Side> {
    match first_port_named(ps, name) {
        Some(p) => match resolved_side(p) {
            Some(s) => Some(s),
            None => side_of_port_name(name),
        },
        None => side_of_port_name(name),
    }
}

/// The ports on `side` counted in order, with the position among them of
/// the first one named `name`.
pub open spec fn side_scan(ps: Seq<PortV>, side: Side, name: Seq<char>) -> (Option<nat>, nat)
    decreases ps.len(),
{
    if ps.len() == 0 {
        (None, 0)
    } else {
        let r = side_scan(ps.drop_last(), side, name);
        let p = ps.last();
        if resolved_side(p) == Some(side) {
            (if r.0 is None && p.name == name { Some(r.1) } else { r.0 }, r.1 + 1)
        } else {
            r
        }
    }
}

proof fn lemma_side_scan_bound(ps: Seq<PortV>, side: Side, name: Seq<char>)
    ensures
        side_scan(ps, side, name).1 <= ps.len(),
        side_scan(ps, side, name).0 matches Some(i) ==> i < side_scan(ps, side, name).1,
    decreases ps.len(),
{
    if ps.len() > 0 {
        lemma_side_scan_bound(ps.drop_last(), side, name);
    }
}

/// Which side port `name` sits on, its position among the ports on that
/// side and how many share it; `None` when no side can be told.
pub fn port_slot(ports: &[Port], port_name: &str) -> (r: Option<PortSlot>)
    ensures
        match r {
            None => slot_side(ports_view(ports@), port_name@) is None,
            Some(sl) => slot_side(ports_view(ports@), port_name@) == Some(sl.side) && ({
                let sc = side_scan(ports_view(ports@), sl.side, port_name@);
                &&& sl.count == sc.1
                &&& match sl.index {
                    Some(i) => sc.0 == Some(i as nat),
                    None => sc.0 is None,
                }
            }),
        },
{
    let declared = match find_port(ports, port_name) {
        Some(p) => port_side(p),
        None => None,
    };
    let side = match declared {
        Some(s) => s,
        None => match infer_port_side(port_name) {
            Some(s) => s,
            None => return None,
        },
    };
    let ghost pv = ports_view(ports@);
    let mut index: Option<usize> = None;
    let mut count: usize = 0;
    let mut i: usize = 0;
    assert(pv.subrange(0, 0) =~= Seq::<PortV>::empty());
    while i < ports.len()
        invariant
            i <= ports@.len(),
            pv == ports_view(ports@),
            count as nat == side_scan(pv.subrange(0, i as int), side, port_name@).1,
            match index {
                Some(k) => side_scan(pv.subrange(0, i as int), side, port_name@).0 == Some(k as nat),
                None => side_scan(pv.subrange(0, i as int), side, port_name@).0 is None,
            },
        decreases ports@.len() - i,
    {
        let ghost pre = pv.subrange(0, i as int);
        let ghost post = pv.subrange(0, i + 1);
        assert(post.drop_last() =~= pre);
        assert(post.last() == ports@[i as int]@);
        proof {
            lemma_side_scan_bound(pre, side, port_name@);
        }
        if port_side(&ports[i]) == Some(side) {
            if index.is_none() && str_eq(ports[i].name.as_str(), port_name) {
                index = Some(count);
            }
            count = count + 1;
        }
        i = i + 1;
    }
    assert(pv.subrange(0, i as int) =~= pv);
    Some(PortSlot { side, index, count })
}

/// The explicit grid position that an object declares, for the kinds whose
/// position layout honours.
pub open spec fn explicit_pos(g: DiagramV, kind: DeclKind, id: Seq<char>) -> Option<GridPos> {
    match kind {
        DeclKind::Equipment => match lookup(g.equipment, id) {
            Some(e) => e.pos,
            None => None,
        },
        DeclKind::Valve => match lookup(g.valves, id) {
            Some(v) => v.pos,
            None => None,
        },
        DeclKind::Instrument => match lookup(g.instruments, id) {
            Some(x) => x.pos,
            None => None,
        },
        DeclKind::Junction => match lookup(g.junctions, id) {
            Some(j) => j.pos,
            None => None,
        },
        DeclKind::Note => match lookup(g.notes, id) {
            Some(n) => n.pos,
            None => None,
        },
        _ => None,
    }
}

/// The explicit grid position of object `id` of kind `kind`.
pub fn get_explicit_pos(diagram: &Diagram, kind: &DeclKind, id: &str) -> (r: Option<GridPos>)
    requires
        diagram.wf(),
    ensures
        r == explicit_pos(diagram@, *kind, id@),
{
    proof {
        diagram.equipment.lemma_wf();
        diagram.valves.lemma_wf();
        diagram.instruments.lemma_wf();
        diagram.junctions.lemma_wf();
        diagram.notes.lemma_wf();
        lemma_entries_view(diagram.equipment.entries(), id@);
        lemma_entries_view(diagram.valves.entries(), id@);
        lemma_entries_view(diagram.instruments.entries(), id@);
        lemma_entries_view(diagram.junctions.entries(), id@);
        lemma_entries_view(diagram.notes.entries(), id@);
    }
    match kind {
        DeclKind::Equipment => match diagram.equipment.get(id) {
            Some(e) => e.pos,
            None => None,
        },
        DeclKind::Valve => match diagram.valves.get(id) {
            Some(v) => v.pos,
            None => None,
        },
        DeclKind::Instrument => match diagram.instruments.get(id) {
            Some(x) => x.pos,
            None => None,
        },
        DeclKind::Junction => match diagram.junctions.get(id) {
            Some(j) => j.pos,
            None => None,
        },
        DeclKind::Note => match diagram.notes.get(id) {
            Some(n) => n.pos,
            None => None,
        },
        _ => None,
    }
}

/// The outline family of object `id`: a capsule for the sized vessel and
/// the three-phase separator drum, a rectangle otherwise.
pub open spec fn shape_of(g: DiagramV, id: Seq<char>) -> SymbolShape {
    match lookup(g.equipment, id) {
        Some(e) => {
            let key = equipment_key_of(e.equip_type);
            if (key == "vessel"@ && e.size is Some) || key == "separator_3phase"@ {
                SymbolShape::Capsule
            } else {
                SymbolShape::Rect
            }
        },
        None => SymbolShape::Rect,
    }
}

/// Shape family of an object's drawn outline.
pub fn symbol_shape(diagram: &Diagram, id: &str) -> (r: SymbolShape)
    requires
        diagram.wf(),
    ensures
        r == shape_of(diagram@, id@),
{
    proof {
        diagram.equipment.lemma_wf();
        lemma_entries_view(diagram.equipment.entries(), id@);
    }
    if let Some(e) = diagram.equipment.get(id) {
        let key = equipment_symbol_key(e.equip_type.as_str());
        // The parametric sized vessel and the big separator drum draw exact
        // capsules; the small fixed symbols overdraw their bounding box, so
        // rectangle ports already land under the fill.
        if (str_eq(key, "vessel") && e.size.is_some()) || str_eq(key, "separator_3phase") {
            return SymbolShape::Capsule;
        }
    }
    SymbolShape::Rect
}

// ---- Laws of port slots ----

/// How many ports lie on `side`.
pub open spec fn side_count(ps: Seq<PortV>, side: Side) -> nat
    decreases ps.len(),
{
    if ps.len() == 0 {
        0
    } else {
        side_count(ps.drop_last(), side) + if resolved_side(ps.last()) == Some(side) {
            1nat
        } else {
            0nat
        }
    }
}

/// Port `k` is on `side`, is named `name`, and no earlier port on that
/// side has that name.
pub open spec fn first_on_side(ps: Seq<PortV>, side: Side, name: Seq<char>, k: int) -> bool {
    &&& 0 <= k < ps.len()
    &&& resolved_side(ps[k]) == Some(side)
    &&& ps[k].name == name
    &&& forall|j: int| 0 <= j < k ==> !(resolved_side(#[trigger] ps[j]) == Some(side) && ps[j].name == name)
}

proof fn lemma_scan_count(ps: Seq<PortV>, side: Side, name: Seq<char>)
    ensures
        side_scan(ps, side, name).1 == side_count(ps, side),
        side_scan(ps, side, name).0 is None <==> !exists|k: int|
            0 <= k < ps.len() && resolved_side(#[trigger] ps[k]) == Some(side) && ps[k].name == name,
    decreases ps.len(),
{
    if ps.len() > 0 {
        let t = ps.drop_last();
        lemma_scan_count(t, side, name);
        if exists|k: int| 0 <= k < t.len() && resolved_side(#[trigger] t[k]) == Some(side) && t[k].name == name {
            let k = choose|k: int| 0 <= k < t.len() && resolved_side(#[trigger] t[k]) == Some(side) && t[k].name == name;
            assert(ps[k] == t[k]);
        }
        if exists|k: int| 0 <= k < ps.len() && resolved_side(#[trigger] ps[k]) == Some(side) && ps[k].name == name {
            let k = choose|k: int| 0 <= k < ps.len() && resolved_side(#[trigger] ps[k]) == Some(side) && ps[k].name == name;
            if k < t.len() {
                assert(t[k] == ps[k]);
            }
        }
    }
}

proof fn lemma_scan_first(ps: Seq<PortV>, side: Side, name: Seq<char>, k: int)
    requires
        first_on_side(ps, side, name, k),
    ensures
        side_scan(ps, side, name).0 == Some(side_count(ps.subrange(0, k), side)),
    decreases ps.len(),
{
    let t = ps.drop_last();
    lemma_scan_count(t, side, name);
    if k == ps.len() - 1 {
        assert(t =~= ps.subrange(0, k));
        assert forall|j: int| 0 <= j < t.len() implies !(resolved_side(#[trigger] t[j]) == Some(side) && t[j].name == name) by {
            assert(t[j] == ps[j]);
        }
    } else {
        assert(first_on_side(t, side, name, k)) by {
            assert forall|j: int| 0 <= j < k implies !(resolved_side(#[trigger] t[j]) == Some(side) && t[j].name == name) by {
                assert(t[j] == ps[j]);
            }
            assert(t[k] == ps[k]);
        }
        lemma_scan_first(t, side, name, k);
        assert(t.subrange(0, k) =~= ps.subrange(0, k));
    }
}

proof fn lemma_side_count_grows(ps: Seq<PortV>, side: Side, a: int, b: int)
    requires
        0 <= a <= b <= ps.len(),
    ensures
        side_count(ps.subrange(0, a), side) <= side_count(ps.subrange(0, b), side),
        a < b && resolved_side(ps[a]) == Some(side) ==> side_count(ps.subrange(0, a), side) < side_count(
            ps.subrange(0, b),
            side,
        ),
    decreases b - a,
{
    if a < b {
        lemma_side_count_grows(ps, side, a, b - 1);
        assert(ps.subrange(0, b).drop_last() =~= ps.subrange(0, b - 1));
        if a == b - 1 {
            assert(ps.subrange(0, b).last() == ps[a]);
        }
    }
}

/// Ports sharing a side keep their declaration order: of two differently
/// named ports on one side, the one declared first gets the lower slot.
pub proof fn lemma_slots_follow_declaration_order(
    ps: Seq<PortV>,
    side: Side,
    a: Seq<char>,
    b: Seq<char>,
    ka: int,
    kb: int,
)
    requires
        first_on_side(ps, side, a, ka),
        first_on_side(ps, side, b, kb),
        ka < kb,
    ensures
        side_scan(ps, side, a).0 matches Some(ia) && side_scan(ps, side, b).0 matches Some(ib) && ia
            < ib && ib < side_scan(ps, side, b).1,
{
    lemma_scan_first(ps, side, a, ka);
    lemma_scan_first(ps, side, b, kb);
    lemma_side_count_grows(ps, side, ka, kb);
    lemma_side_count_grows(ps, side, kb, ps.len() as int);
    lemma_scan_count(ps, side, b);
    assert(ps.subrange(0, ps.len() as int) =~= ps);
}

/// The conventional flow names sit on opposite sides: `in` and `inlet` on
/// the west, `out` and `outlet` on the east; `top`, `vent` and `north` on
/// the north, opposite `bottom`, `drain` and `south`.
pub proof fn lemma_flow_names_face_each_other()
    ensures
        forall|n: Seq<char>, m: Seq<char>|
            (n == "in"@ || n == "inlet"@) && (m == "out"@ || m == "outlet"@) ==> side_of_port_name(n)
                == Some(Side::West) && side_of_port_name(m) == Some(Side::East),
        forall|n: Seq<char>, m: Seq<char>|
            (n == "top"@ || n == "vent"@ || n == "north"@) && (m == "bottom"@ || m == "drain"@
                || m == "south"@) ==> side_of_port_name(n) == Some(Side::North) && side_of_port_name(m)
                == Some(Side::South),
        side_of_port_name("west"@) == Some(Side::West),
        side_of_port_name("east"@) == Some(Side::East),
{
    reveal_strlit("in");
    reveal_strlit("inlet");
    reveal_strlit("out");
    reveal_strlit("outlet");
    reveal_strlit("west");
    reveal_strlit("east");
    reveal_strlit("top");
    reveal_strlit("north");
    reveal_strlit("vent");
    reveal_strlit("bottom");
    reveal_strlit("south");
    reveal_strlit("drain");
    assert(side_of_port_name("in"@) == Some(Side::West));
    assert(side_of_port_name("inlet"@) == Some(Side::West));
    assert("out"@[0] == 'o' && "in"@[0] == 'i' && "inlet"@[0] == 'i' && "west"@[0] == 'w');
    assert("outlet"@[0] == 'o' && "east"@[0] == 'e' && "top"@[0] == 't' && "north"@[0] == 'n'
        && "vent"@[0] == 'v' && "bottom"@[0] == 'b' && "south"@[0] == 's' && "drain"@[0] == 'd');
    assert("out"@ != "in"@ && "out"@ != "inlet"@ && "out"@ != "west"@);
    assert(side_of_port_name("out"@) == Some(Side::East));
    assert("outlet"@[0] == 'o');
    assert("outlet"@ != "in"@ && "outlet"@ != "inlet"@ && "outlet"@ != "west"@);
    assert(side_of_port_name("outlet"@) == Some(Side::East));
    assert("east"@ != "in"@ && "east"@ != "inlet"@ && "east"@ != "west"@);
    assert(side_of_port_name("east"@) == Some(Side::East));
    assert("top"@ != "in"@ && "top"@ != "inlet"@ && "top"@ != "west"@ && "top"@ != "out"@
        && "top"@ != "outlet"@ && "top"@ != "east"@);
    assert(side_of_port_name("top"@) == Some(Side::North));
    assert("north"@ != "in"@ && "north"@ != "inlet"@ && "north"@ != "west"@ && "north"@ != "out"@
        && "north"@ != "outlet"@ && "north"@ != "east"@);
    assert(side_of_port_name("north"@) == Some(Side::North));
    assert("vent"@ != "in"@ && "vent"@ != "inlet"@ && "vent"@ != "west"@ && "vent"@ != "out"@
        && "vent"@ != "outlet"@ && "vent"@ != "east"@);
    assert(side_of_port_name("vent"@) == Some(Side::North));
    assert("bottom"@ != "in"@ && "bottom"@ != "inlet"@ && "bottom"@ != "west"@ && "bottom"@ != "out"@
        && "bottom"@ != "outlet"@ && "bottom"@ != "east"@ && "bottom"@ != "top"@ && "bottom"@
        != "north"@ && "bottom"@ != "vent"@);
    assert(side_of_port_name("bottom"@) == Some(Side::South));
    assert("south"@ != "in"@ && "south"@ != "inlet"@ && "south"@ != "west"@ && "south"@ != "out"@
        && "south"@ != "outlet"@ && "south"@ != "east"@ && "south"@ != "top"@ && "south"@
        != "north"@ && "south"@ != "vent"@);
    assert(side_of_port_name("south"@) == Some(Side::South));
    assert("drain"@ != "in"@ && "drain"@ != "inlet"@ && "drain"@ != "west"@ && "drain"@ != "out"@
        && "drain"@ != "outlet"@ && "drain"@ != "east"@ && "drain"@ != "top"@ && "drain"@
        != "north"@ && "drain"@ != "vent"@);
    assert(side_of_port_name("drain"@) == Some(Side::South));
}


// ---- Laws of positions and connection sides ----

proof fn lemma_lookup_entry<T>(e: Seq<(Seq<char>, T)>, i: int)
    requires
        distinct_keys(e),
        0 <= i < e.len(),
    ensures
        lookup(e, e[i].0) == Some(e[i].1),
{
    let k = choose|k: int| 0 <= k < e.len() && (#[trigger] e[k]).0 == e[i].0;
    assert(k == i);
}

/// Layout honours the position that each equipment, valve, instrument,
/// junction and note declares, and no line, signal, group or area has a
/// position of its own.
pub proof fn lemma_declared_positions_are_honoured(g: DiagramV, id: Seq<char>)
    requires
        distinct_keys(g.equipment),
        distinct_keys(g.valves),
        distinct_keys(g.instruments),
        distinct_keys(g.junctions),
        distinct_keys(g.notes),
    ensures
        forall|i: int| 0 <= i < g.equipment.len() ==> explicit_pos(g, DeclKind::Equipment, (#[trigger] g.equipment[i]).0)
            == g.equipment[i].1.pos,
        forall|i: int| 0 <= i < g.valves.len() ==> explicit_pos(g, DeclKind::Valve, (#[trigger] g.valves[i]).0)
            == g.valves[i].1.pos,
        forall|i: int| 0 <= i < g.instruments.len() ==> explicit_pos(g, DeclKind::Instrument, (#[trigger] g.instruments[i]).0)
            == g.instruments[i].1.pos,
        forall|i: int| 0 <= i < g.junctions.len() ==> explicit_pos(g, DeclKind::Junction, (#[trigger] g.junctions[i]).0)
            == g.junctions[i].1.pos,
        forall|i: int| 0 <= i < g.notes.len() ==> explicit_pos(g, DeclKind::Note, (#[trigger] g.notes[i]).0)
            == g.notes[i].1.pos,
        explicit_pos(g, DeclKind::Line, id) is None,
        explicit_pos(g, DeclKind::Signal, id) is None,
        explicit_pos(g, DeclKind::Group, id) is None,
        explicit_pos(g, DeclKind::Area, id) is None,
{
    assert forall|i: int| 0 <= i < g.equipment.len() implies explicit_pos(g, DeclKind::Equipment, (#[trigger] g.equipment[i]).0)
        == g.equipment[i].1.pos by {
        lemma_lookup_entry(g.equipment, i);
    }
    assert forall|i: int| 0 <= i < g.valves.len() implies explicit_pos(g, DeclKind::Valve, (#[trigger] g.valves[i]).0)
        == g.valves[i].1.pos by {
        lemma_lookup_entry(g.valves, i);
    }
    assert forall|i: int| 0 <= i < g.instruments.len() implies explicit_pos(g, DeclKind::Instrument, (#[trigger] g.instruments[i]).0)
        == g.instruments[i].1.pos by {
        lemma_lookup_entry(g.instruments, i);
    }
    assert forall|i: int| 0 <= i < g.junctions.len() implies explicit_pos(g, DeclKind::Junction, (#[trigger] g.junctions[i]).0)
        == g.junctions[i].1.pos by {
        lemma_lookup_entry(g.junctions, i);
    }
    assert forall|i: int| 0 <= i < g.notes.len() implies explicit_pos(g, DeclKind::Note, (#[trigger] g.notes[i]).0)
        == g.notes[i].1.pos by {
        lemma_lookup_entry(g.notes, i);
    }
}

/// A connection end without a port leaves its object on the east and
/// enters on the west.
pub proof fn lemma_portless_ends_run_east_to_west(g: DiagramV, ep: RefV)
    requires
        ep.port is None,
    ensures
        endpoint_side_of(g, ep, true) == Side::East,
        endpoint_side_of(g, ep, false) == Side::West,
{
}

/// At a port of a piece of equipment, a connection uses the side that the
/// first port of that name declares; where that port declares none, or the
/// equipment has no port of that name, the side that the name implies, and
/// failing that east for a start and west for an end.
pub proof fn lemma_equipment_port_sides(g: DiagramV, j: int, pn: Seq<char>, is_from: bool)
    requires
        distinct_keys(g.equipment),
        0 <= j < g.equipment.len(),
    ensures
        ({
            let ep = RefV { id: g.equipment[j].0, port: Some(pn) };
            let ps = g.equipment[j].1.ports;
            let by_name = match side_of_port_name(pn) {
                Some(s) => s,
                None => if is_from { Side::East } else { Side::West },
            };
            &&& forall|k: int|
                0 <= k < ps.len() && (#[trigger] ps[k]).name == pn && ps[k].side is Some
                    && (forall|m: int| 0 <= m < k ==> (#[trigger] ps[m]).name != pn)
                    ==> endpoint_side_of(g, ep, is_from) == ps[k].side->Some_0
            &&& (forall|k: int| 0 <= k < ps.len() && (#[trigger] ps[k]).name == pn ==> ps[k].side is None)
                ==> endpoint_side_of(g, ep, is_from) == by_name
        }),
{
    lemma_lookup_entry(g.equipment, j);
    let ps = g.equipment[j].1.ports;
    let ep = RefV { id: g.equipment[j].0, port: Some(pn) };
    assert(ports_of(g, ep.id) == Some(ps));
    assert forall|k: int|
        0 <= k < ps.len() && (#[trigger] ps[k]).name == pn && ps[k].side is Some
            && (forall|m: int| 0 <= m < k ==> (#[trigger] ps[m]).name != pn)
        implies endpoint_side_of(g, ep, is_from) == ps[k].side->Some_0 by {
        lemma_first_port_named_at(ps, pn, k);
    }
    if forall|k: int| 0 <= k < ps.len() && (#[trigger] ps[k]).name == pn ==> ps[k].side is None {
        lemma_first_port_named_some(ps, pn);
    }
}

proof fn lemma_first_port_named_at(ps: Seq<PortV>, pn: Seq<char>, k: int)
    requires
        0 <= k < ps.len(),
        ps[k].name == pn,
        forall|m: int| 0 <= m < k ==> (#[trigger] ps[m]).name != pn,
    ensures
        first_port_named(ps, pn) == Some(ps[k]),
    decreases k,
{
    if k > 0 {
        assert(ps[0].name != pn);
        assert forall|m: int| 0 <= m < k - 1 implies (#[trigger] ps.drop_first()[m]).name != pn by {
            assert(ps.drop_first()[m] == ps[m + 1]);
        }
        lemma_first_port_named_at(ps.drop_first(), pn, k - 1);
    }
}

proof fn lemma_first_port_named_some(ps: Seq<PortV>, pn: Seq<char>)
    ensures
        first_port_named(ps, pn) matches Some(p) ==> exists|k: int| 0 <= k < ps.len() && #[trigger] ps[k] == p
            && p.name == pn,
    decreases ps.len(),
{
    if ps.len() > 0 && ps[0].name != pn {
        lemma_first_port_named_some(ps.drop_first(), pn);
        if first_port_named(ps, pn) is Some {
            let p = first_port_named(ps, pn)->Some_0;
            let k = choose|k: int| 0 <= k < ps.drop_first().len() && #[trigger] ps.drop_first()[k] == p && p.name == pn;
            assert(ps[k + 1] == p);
        }
    } else if ps.len() > 0 {
        assert(ps[0] == ps[0]);
    }
}

// ---- Laws of spare nozzles ----

proof fn lemma_concat_contains<A>(a: Seq<A>, b: Seq<A>, x: A)
    ensures
        (a + b).contains(x) <==> a.contains(x) || b.contains(x),
{
    if a.contains(x) {
        let i = choose|i: int| 0 <= i < a.len() && a[i] == x;
        assert((a + b)[i] == x);
    }
    if b.contains(x) {
        let i = choose|i: int| 0 <= i < b.len() && b[i] == x;
        assert((a + b)[a.len() + i] == x);
    }
    if (a + b).contains(x) {
        let i = choose|i: int| 0 <= i < (a + b).len() && (a + b)[i] == x;
        if i < a.len() {
            assert(a[i] == x);
        } else {
            assert(b[i - a.len()] == x);
        }
    }
}

proof fn lemma_spare_of_contains(g: DiagramV, id: Seq<char>, ps: Seq<PortV>, x: (Seq<char>, PortV))
    ensures
        spare_of(g, id, ps).contains(x) <==> (x.0 == id && !port_used(g, id, x.1.name) && exists|k: int|
            0 <= k < ps.len() && #[trigger] ps[k] == x.1),
    decreases ps.len(),
{
    if ps.len() > 0 {
        let t = ps.drop_last();
        lemma_spare_of_contains(g, id, t, x);
        let b = if port_used(g, id, ps.last().name) {
            Seq::<(Seq<char>, PortV)>::empty()
        } else {
            seq![(id, ps.last())]
        };
        lemma_concat_contains(spare_of(g, id, t), b, x);
        if exists|k: int| 0 <= k < t.len() && #[trigger] t[k] == x.1 {
            let k = choose|k: int| 0 <= k < t.len() && #[trigger] t[k] == x.1;
            assert(ps[k] == x.1);
        }
        if exists|k: int| 0 <= k < ps.len() && #[trigger] ps[k] == x.1 {
            let k = choose|k: int| 0 <= k < ps.len() && #[trigger] ps[k] == x.1;
            if k < t.len() {
                assert(t[k] == x.1);
            }
        }
        if b.contains(x) {
            assert(b[0] == x);
        }
        if x.0 == id && !port_used(g, id, x.1.name) && x.1 == ps.last() {
            assert(b[0] == x);
        }
    }
}

proof fn lemma_spare_in_contains(g: DiagramV, es: Seq<(Seq<char>, EquipmentV)>, x: (Seq<char>, PortV))
    ensures
        spare_in(g, es).contains(x) <==> exists|i: int, k: int|
            0 <= i < es.len() && 0 <= k < (#[trigger] es[i]).1.ports.len() && es[i].1.id == x.0
                && #[trigger] es[i].1.ports[k] == x.1 && !port_used(g, x.0, x.1.name),
    decreases es.len(),
{
    if es.len() > 0 {
        let t = es.drop_last();
        let e = es.last();
        lemma_spare_in_contains(g, t, x);
        lemma_spare_of_contains(g, e.1.id, e.1.ports, x);
        lemma_concat_contains(spare_in(g, t), spare_of(g, e.1.id, e.1.ports), x);
        if exists|i: int, k: int|
            0 <= i < t.len() && 0 <= k < (#[trigger] t[i]).1.ports.len() && t[i].1.id == x.0
                && #[trigger] t[i].1.ports[k] == x.1 && !port_used(g, x.0, x.1.name) {
            let (i, k) = choose|i: int, k: int|
                0 <= i < t.len() && 0 <= k < (#[trigger] t[i]).1.ports.len() && t[i].1.id == x.0
                    && #[trigger] t[i].1.ports[k] == x.1 && !port_used(g, x.0, x.1.name);
            assert(es[i] == t[i]);
        }
        if spare_of(g, e.1.id, e.1.ports).contains(x) {
            let k = choose|k: int| 0 <= k < e.1.ports.len() && #[trigger] e.1.ports[k] == x.1;
            assert(es[es.len() - 1] == e);
        }
        if exists|i: int, k: int|
            0 <= i < es.len() && 0 <= k < (#[trigger] es[i]).1.ports.len() && es[i].1.id == x.0
                && #[trigger] es[i].1.ports[k] == x.1 && !port_used(g, x.0, x.1.name) {
            let (i, k) = choose|i: int, k: int|
                0 <= i < es.len() && 0 <= k < (#[trigger] es[i]).1.ports.len() && es[i].1.id == x.0
                    && #[trigger] es[i].1.ports[k] == x.1 && !port_used(g, x.0, x.1.name);
            if i < t.len() {
                assert(t[i] == es[i]);
            } else {
                assert(es[i] == e);
                assert(e.1.ports[k] == x.1);
            }
        }
    }
}

/// The spare nozzles are exactly the equipment ports that nothing uses: a
/// port of a piece of equipment is listed, under that equipment's id, if
/// and only if no line, signal or attachment names it.
pub proof fn lemma_spare_nozzles_are_unused_ports(g: DiagramV, id: Seq<char>, p: PortV)
    ensures
        spare_ports_of(g).contains((id, p)) <==> exists|i: int, k: int|
            0 <= i < g.equipment.len() && 0 <= k < (#[trigger] g.equipment[i]).1.ports.len()
                && g.equipment[i].1.id == id && #[trigger] g.equipment[i].1.ports[k] == p
                && !port_used(g, id, p.name),
{
    lemma_spare_in_contains(g, g.equipment, (id, p));
}

/// A port that a line or signal starts or ends at, or that an instrument
/// or piece of equipment is attached to, is no spare nozzle.
pub proof fn lemma_connected_ports_are_not_spare(g: DiagramV, id: Seq<char>, p: PortV)
    requires
        ({
            let r = RefV { id: id, port: Some(p.name) };
            ||| exists|i: int| 0 <= i < g.lines.len() && (#[trigger] g.lines[i]).1.from == r
            ||| exists|i: int| 0 <= i < g.lines.len() && (#[trigger] g.lines[i]).1.to == Some(r)
            ||| exists|i: int| 0 <= i < g.signals.len() && (#[trigger] g.signals[i]).1.from == r
            ||| exists|i: int| 0 <= i < g.signals.len() && (#[trigger] g.signals[i]).1.to == r
            ||| exists|i: int| 0 <= i < g.instruments.len() && (#[trigger] g.instruments[i]).1.attach == Some(r)
            ||| exists|i: int| 0 <= i < g.equipment.len() && (#[trigger] g.equipment[i]).1.attach == Some(r)
        }),
    ensures
        !spare_ports_of(g).contains((id, p)),
{
    let r = RefV { id: id, port: Some(p.name) };
    if exists|i: int| 0 <= i < g.lines.len() && (#[trigger] g.lines[i]).1.from == r {
        let i = choose|i: int| 0 <= i < g.lines.len() && (#[trigger] g.lines[i]).1.from == r;
        assert(line_uses(g.lines[i].1, id, p.name));
    } else if exists|i: int| 0 <= i < g.lines.len() && (#[trigger] g.lines[i]).1.to == Some(r) {
        let i = choose|i: int| 0 <= i < g.lines.len() && (#[trigger] g.lines[i]).1.to == Some(r);
        assert(line_uses(g.lines[i].1, id, p.name));
    } else if exists|i: int| 0 <= i < g.signals.len() && (#[trigger] g.signals[i]).1.from == r {
        let i = choose|i: int| 0 <= i < g.signals.len() && (#[trigger] g.signals[i]).1.from == r;
        assert(signal_uses(g.signals[i].1, id, p.name));
    } else if exists|i: int| 0 <= i < g.signals.len() && (#[trigger] g.signals[i]).1.to == r {
        let i = choose|i: int| 0 <= i < g.signals.len() && (#[trigger] g.signals[i]).1.to == r;
        assert(signal_uses(g.signals[i].1, id, p.name));
    } else if exists|i: int| 0 <= i < g.instruments.len() && (#[trigger] g.instruments[i]).1.attach == Some(r) {
        let i = choose|i: int| 0 <= i < g.instruments.len() && (#[trigger] g.instruments[i]).1.attach == Some(r);
        assert(attach_uses(g.instruments[i].1.attach, id, p.name));
    } else {
        let i = choose|i: int| 0 <= i < g.equipment.len() && (#[trigger] g.equipment[i]).1.attach == Some(r);
        assert(attach_uses(g.equipment[i].1.attach, id, p.name));
    }
    assert(port_used(g, id, p.name));
    lemma_spare_nozzles_are_unused_ports(g, id, p);
}

/// The four side words mean the same side whether a port declares it or
/// is named by it: a port named `north`, `south`, `east` or `west` sits on
/// that side.
pub proof fn lemma_side_words_agree(w: Seq<char>)
    ensures
        crate::model::side_of_word(w) is Some ==> side_of_port_name(w) == crate::model::side_of_word(w),
{
    reveal_strlit("in");
    reveal_strlit("inlet");
    reveal_strlit("out");
    reveal_strlit("outlet");
    reveal_strlit("west");
    reveal_strlit("east");
    reveal_strlit("top");
    reveal_strlit("north");
    reveal_strlit("vent");
    reveal_strlit("bottom");
    reveal_strlit("south");
    reveal_strlit("drain");
    assert("in"@[0] == 'i' && "inlet"@[0] == 'i' && "west"@[0] == 'w' && "out"@[0] == 'o' && "outlet"@[0] == 'o'
        && "east"@[0] == 'e' && "top"@[0] == 't' && "north"@[0] == 'n' && "vent"@[0] == 'v' && "bottom"@[0] == 'b'
        && "south"@[0] == 's' && "drain"@[0] == 'd');
    if w == "north"@ {
        assert(w != "in"@ && w != "inlet"@ && w != "west"@ && w != "out"@ && w != "outlet"@ && w != "east"@
            && w != "top"@);
    } else if w == "south"@ {
        assert(w != "in"@ && w != "inlet"@ && w != "west"@ && w != "out"@ && w != "outlet"@ && w != "east"@
            && w != "top"@ && w != "north"@ && w != "vent"@ && w != "bottom"@);
    } else if w == "east"@ {
        assert(w != "in"@ && w != "inlet"@ && w != "west"@ && w != "out"@ && w != "outlet"@);
    } else if w == "west"@ {
        assert(w != "in"@ && w != "inlet"@);
    }
}

} // verus!
