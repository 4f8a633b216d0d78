//! Normalization: turns parsed declarations into the typed diagram model,
//! reporting duplicate ids, missing required properties and unknown keys.

use vstd::prelude::*;
use vstd::std_specs::iter::IteratorSpec;
use crate::ast::{
    Decl, DeclForm, DeclKind, DeclV, Document, Prop, PropV, PropVal, PropValV, Value, ValueV,
    form_props, join_ints, kind_name, lemma_props_view, prop_view, props_view, strings_view,
};
use crate::diag::{DiagEngine, Diagnostic, DiagV, Severity, dg};
use crate::model::{
    AreaV, Area, Diagram, DiagramV, Equipment, EquipmentV, GridPos, Group, GroupV, IdMap,
    Instrument, InstrumentV, Junction, JunctionV, Line, LineV, Note, NoteV, ObjRef, Port, PortV,
    RefV, Side, Signal, SignalV, Valve, ValveV, entries_view, has_key, id_in, lemma_entries_view,
    ostr, order_view, oref, ports_view, side_of_word, empty_diagram, entries_insert,
};
use crate::span::Span;
use crate::text::{debug_str, str_debug, contains_str, fmt_i32, push_char, push_str, str_eq, string_of, strs_view};

verus! {

// ---- Property lookup ----

/// The first property with key `key`.
pub open spec fn first_prop(ps: Seq<PropV>, key: Seq<char>) -> Option<PropV>
    decreases ps.len(),
{
    if ps.len() == 0 {
        None
    } else if ps[0].key == key {
        Some(ps[0])
    } else {
        first_prop(ps.drop_first(), key)
    }
}

/// A property's value as text: a string, or a reference without a port.
pub open spec fn prop_text(p: PropV) -> Option<Seq<char>> {
    match p.value {
        PropValV::Value(ValueV::Str(s)) => Some(s),
        PropValV::Value(ValueV::Ref(s, None)) => Some(s),
        _ => None,
    }
}

/// Position of the first `.` at or after `i`, or the length.
pub open spec fn dot_pos(s: Seq<char>, i: int) -> int
    decreases s.len() - i,
{
    if i >= s.len() {
        s.len() as int
    } else if s[i] == '.' {
        i
    } else {
        dot_pos(s, i + 1)
    }
}

/// `dot_pos` finds the first dot at or after `i`.
pub proof fn lemma_dot_pos(s: Seq<char>, i: int)
    requires
        0 <= i <= s.len(),
    ensures
        i <= dot_pos(s, i) <= s.len(),
        dot_pos(s, i) < s.len() ==> s[dot_pos(s, i)] == '.',
        forall|j: int| i <= j < dot_pos(s, i) ==> s[j] != '.',
    decreases s.len() - i,
{
    if i < s.len() && s[i] != '.' {
        lemma_dot_pos(s, i + 1);
    }
}

/// A bare string read as a reference: `id.port` splits at the first dot.
pub open spec fn split_ref(s: Seq<char>) -> RefV {
    let k = dot_pos(s, 0);
    if k < s.len() {
        RefV { id: s.subrange(0, k), port: Some(s.subrange(k + 1, s.len() as int)) }
    } else {
        RefV { id: s, port: None }
    }
}

/// A property's value as a reference to an object (and port).
pub open spec fn prop_ref(p: PropV) -> Option<RefV> {
    match p.value {
        PropValV::Value(ValueV::Ref(id, port)) => Some(RefV { id, port }),
        PropValV::Value(ValueV::Str(s)) => Some(split_ref(s)),
        _ => None,
    }
}

/// A property's value as a grid position: the first two numbers of a tuple.
pub open spec fn prop_pos(p: PropV) -> Option<GridPos> {
    match p.value {
        PropValV::Value(ValueV::Tuple(n)) => if n.len() >= 2 {
            Some(GridPos { x: n[0], y: n[1] })
        } else {
            None
        },
        _ => None,
    }
}

/// The text of property `key`, if present and textual.
pub open spec fn str_prop(ps: Seq<PropV>, key: Seq<char>) -> Option<Seq<char>> {
    match first_prop(ps, key) {
        Some(p) => prop_text(p),
        None => None,
    }
}

/// The position given by property `key`, if present and a tuple.
pub open spec fn pos_prop(ps: Seq<PropV>, key: Seq<char>) -> Option<GridPos> {
    match first_prop(ps, key) {
        Some(p) => prop_pos(p),
        None => None,
    }
}

/// The reference given by property `key`, if present and readable as one.
pub open spec fn ref_prop(ps: Seq<PropV>, key: Seq<char>) -> Option<RefV> {
    match first_prop(ps, key) {
        Some(p) => prop_ref(p),
        None => None,
    }
}

/// A yes/no property: true when its text is `true` or `yes`.
pub open spec fn flag_prop(ps: Seq<PropV>, key: Seq<char>) -> bool {
    match str_prop(ps, key) {
        Some(v) => v == "true"@ || v == "yes"@,
        None => false,
    }
}

/// Looking from position `i` on finds the same property as looking from
/// `i + 1` on, unless position `i` has the key.
proof fn lemma_first_prop_step(ps: Seq<PropV>, key: Seq<char>, i: int)
    requires
        0 <= i < ps.len(),
    ensures
        first_prop(ps.subrange(i, ps.len() as int), key) == if ps[i].key == key {
            Some(ps[i])
        } else {
            first_prop(ps.subrange(i + 1, ps.len() as int), key)
        },
{
    assert(ps.subrange(i, ps.len() as int).drop_first() =~= ps.subrange(i + 1, ps.len() as int));
}

/// The first property with key `key`.
fn find_prop<'a>(props: &'a [Prop], key: &str) -> (r: Option<&'a Prop>)
    ensures
        match r {
            Some(p) => first_prop(props_view(props@), key@) == Some(prop_view(*p)),
            None => first_prop(props_view(props@), key@) is None,
        },
{
    let ghost pv = props_view(props@);
    proof {
        lemma_props_view(props@);
        assert(pv.subrange(0, pv.len() as int) =~= pv);
    }
    let mut i: usize = 0;
    while i < props.len()
        invariant
            i <= props@.len(),
            pv == props_view(props@),
            pv.len() == props@.len(),
            forall|j: int| 0 <= j < props@.len() ==> #[trigger] pv[j] == prop_view(props@[j]),
            first_prop(pv, key@) == first_prop(pv.subrange(i as int, pv.len() as int), key@),
        decreases props@.len() - i,
    {
        proof {
            lemma_first_prop_step(pv, key@, i as int);
        }
        if str_eq(props[i].key.as_str(), key) {
            return Some(&props[i]);
        }
        i = i + 1;
    }
    assert(pv.subrange(i as int, pv.len() as int) =~= Seq::<PropV>::empty());
    None
}

/// A property's value as text: a string, or a reference without a port.
fn prop_as_str(prop: &Prop) -> (r: Option<&str>)
    ensures
        match r {
            Some(s) => prop_text(prop_view(*prop)) == Some(s@),
            None => prop_text(prop_view(*prop)) is None,
        },
{
    match &prop.value {
        PropVal::Value(Value::Str(s)) => Some(s.as_str()),
        PropVal::Value(Value::Ref(s, None)) => Some(s.as_str()),
        _ => None,
    }
}

/// Splits a bare string at its first dot into an object id and a port.
fn split_dotted(s: &str) -> (r: ObjRef)
    ensures
        r@ == split_ref(s@),
{
    let ghost cs = s@;
    let mut chars = s.chars();
    let mut id = String::new();
    let mut port = String::new();
    let mut seen_dot = false;
    let ghost mut k: int = 0;
    assert(cs.subrange(0, cs.len() as int) =~= cs);
    assert(cs.subrange(0, 0) =~= id@);
    proof {
        lemma_dot_pos(cs, 0);
    }
    loop
        invariant_except_break
            0 <= k <= cs.len(),
            0 <= dot_pos(cs, 0) <= cs.len(),
            chars.remaining() == cs.subrange(k, cs.len() as int),
            !seen_dot ==> dot_pos(cs, 0) == dot_pos(cs, k) && id@ == cs.subrange(0, k)
                && port@.len() == 0,
            seen_dot ==> dot_pos(cs, 0) < k && id@ == cs.subrange(0, dot_pos(cs, 0)) && port@
                == cs.subrange(dot_pos(cs, 0) + 1, k),
        ensures
            k == cs.len(),
            !seen_dot ==> dot_pos(cs, 0) == cs.len() && id@ == cs,
            seen_dot ==> dot_pos(cs, 0) < cs.len() && id@ == cs.subrange(0, dot_pos(cs, 0))
                && port@ == cs.subrange(dot_pos(cs, 0) + 1, cs.len() as int),
        decreases cs.len() - k,
    {
        let next = chars.next();
        match next {
            None => {
                assert(k == cs.len());
                assert(cs.subrange(0, k) =~= cs);
                break ;
            },
            Some(c) => {
                assert(c == cs[k]);
                if seen_dot {
                    let ghost p0 = port@;
                    let ghost d = dot_pos(cs, 0);
                    assert(p0 == cs.subrange(d + 1, k));
                    assert(d < k);
                    push_char(&mut port, c);
                    proof {
                        assert(port@ == p0.push(c));
                        assert(port@ =~= cs.subrange(d + 1, k + 1));
                    }
                } else if c == '.' {
                    seen_dot = true;
                    proof {
                        assert(dot_pos(cs, k) == k);
                        assert(port@ =~= cs.subrange(k + 1, k + 1));
                    }
                } else {
                    push_char(&mut id, c);
                    proof {
                        assert(dot_pos(cs, k) == dot_pos(cs, k + 1));
                        assert(id@ =~= cs.subrange(0, k + 1));
                    }
                }
                proof {
                    k = k + 1;
                    assert(chars.remaining() =~= cs.subrange(k, cs.len() as int));
                }
            },
        }
    }
    if seen_dot {
        ObjRef::new(id, Some(port))
    } else {
        ObjRef::new(id, None)
    }
}

/// A property's value as a reference to an object (and port).
fn prop_as_ref(prop: &Prop) -> (r: Option<ObjRef>)
    ensures
        oref(r) == prop_ref(prop_view(*prop)),
{
    match &prop.value {
        PropVal::Value(Value::Ref(id, port)) => Some(ObjRef::new(id.clone(), port.clone())),
        PropVal::Value(Value::Str(s)) => Some(split_dotted(s.as_str())),
        _ => None,
    }
}

/// A property's value as a grid position.
fn prop_as_gridpos(prop: &Prop) -> (r: Option<GridPos>)
    ensures
        r == prop_pos(prop_view(*prop)),
{
    match &prop.value {
        PropVal::Value(Value::Tuple(nums)) => {
            if nums.len() >= 2 {
                Some(GridPos { x: nums[0], y: nums[1] })
            } else {
                None
            }
        },
        _ => None,
    }
}

// ---- Messages ----

/// Five pieces of text, one after another.
fn cat5(a: &str, b: &str, c: &str, d: &str, e: &str) -> (r: String)
    ensures
        r@ == a@ + b@ + c@ + d@ + e@,
{
    let mut m = string_of(a);
    push_str(&mut m, b);
    push_str(&mut m, c);
    push_str(&mut m, d);
    push_str(&mut m, e);
    m
}

pub open spec fn msg_unknown_prop(key: Seq<char>, kind: DeclKind) -> Seq<char> {
    "unknown property `"@ + key + "` on `"@ + kind_name(kind) + "` declaration"@
}

pub open spec fn msg_unknown_side(side: Seq<char>, port: Seq<char>) -> Seq<char> {
    "unknown port side `"@ + side + "` for port `"@ + port + "`"@
}

pub open spec fn msg_missing(kind: DeclKind, id: Seq<char>, prop: Seq<char>) -> Seq<char> {
    kind_name(kind) + " `"@ + id + "` is missing required property `"@ + prop + "`"@
}

pub open spec fn msg_members_list(id: Seq<char>) -> Seq<char> {
    "group `"@ + id + "` property `members` must be a comma-separated list"@
}

pub open spec fn msg_duplicate(id: Seq<char>) -> Seq<char> {
    "duplicate declaration ID `"@ + id + "`"@
}

pub open spec fn note_duplicate() -> Seq<char> {
    "each ID must be unique across all declarations"@
}

/// The `Debug` text of a tuple value or of a reference with a port, the two
/// kinds of value that cannot describe ports.
pub open spec fn odd_value_debug(v: ValueV) -> Seq<char> {
    match v {
        ValueV::Tuple(n) => "Tuple(["@ + join_ints(n, ", "@) + "])"@,
        ValueV::Ref(id, Some(p)) => "Ref("@ + str_debug(id) + ", Some("@ + str_debug(p) + "))"@,
        _ => Seq::empty(),
    }
}

pub open spec fn msg_bad_ports(v: ValueV) -> Seq<char> {
    "could not parse `ports` value: Value("@ + odd_value_debug(v) + ")"@
}

/// Appends the numbers of `nums` in decimal, separated by `sep`.
fn push_ints_joined(out: &mut String, nums: &Vec<i32>, sep: &str)
    ensures
        final(out)@ == old(out)@ + join_ints(nums@, sep@),
{
    let ghost start = out@;
    let mut i: usize = 0;
    while i < nums.len()
        invariant
            i <= nums@.len(),
            out@ == start + join_ints(nums@.subrange(0, i as int), sep@),
        decreases nums@.len() - i,
    {
        if i > 0 {
            push_str(out, sep);
        }
        let d = fmt_i32(nums[i]);
        push_str(out, d.as_str());
        proof {
            let pre = nums@.subrange(0, i as int);
            let post = nums@.subrange(0, i + 1);
            assert(post.drop_last() =~= pre);
            if i == 0 {
                assert(pre =~= Seq::<i32>::empty());
            }
            assert(out@ =~= start + join_ints(post, sep@));
        }
        i = i + 1;
    }
    assert(nums@.subrange(0, i as int) =~= nums@);
}

/// The warning text for a `ports` value that is a tuple or a reference
/// with a port.
fn bad_ports_message(v: &Value) -> (r: String)
    ensures
        r@ == msg_bad_ports(v@),
{
    let mut m = string_of("could not parse `ports` value: Value(");
    match v {
        Value::Tuple(nums) => {
            push_str(&mut m, "Tuple([");
            push_ints_joined(&mut m, nums, ", ");
            push_str(&mut m, "])");
        },
        Value::Ref(id, Some(p)) => {
            push_str(&mut m, "Ref(");
            let a = debug_str(id.as_str());
            push_str(&mut m, a.as_str());
            push_str(&mut m, ", Some(");
            let b = debug_str(p.as_str());
            push_str(&mut m, b.as_str());
            push_str(&mut m, "))");
        },
        _ => {},
    }
    push_str(&mut m, ")");
    proof {
        assert(m@ =~= msg_bad_ports(v@));
    }
    m
}

// ---- Ports ----

pub struct PortsOut {
    pub ports: Seq<PortV>,
    pub diags: Seq<DiagV>,
}

/// The side named by a port entry's value, if it names one.
pub open spec fn port_side(q: PropV) -> Option<Side> {
    match prop_text(q) {
        Some(s) => side_of_word(s),
        None => None,
    }
}

/// The warning for a port entry whose non-empty text names no side.
pub open spec fn side_diags(q: PropV) -> Seq<DiagV> {
    match prop_text(q) {
        Some(s) => if side_of_word(s) is None && s.len() > 0 {
            seq![dg(Severity::Warning, msg_unknown_side(s, q.key), Some(q.span))]
        } else {
            Seq::empty()
        },
        None => Seq::empty(),
    }
}

/// Ports of a `ports:` block: one per entry, named by its key, on the side
/// its value names.
pub open spec fn block_ports(sub: Seq<PropV>) -> PortsOut
    decreases sub.len(),
{
    if sub.len() == 0 {
        PortsOut { ports: Seq::empty(), diags: Seq::empty() }
    } else {
        let r = block_ports(sub.drop_last());
        let q = sub.last();
        PortsOut {
            ports: r.ports.push(PortV { name: q.key, side: port_side(q) }),
            diags: r.diags + side_diags(q),
        }
    }
}

/// Ports declared by a `ports` property: a list of names, a single name,
/// or a block of `name: side` entries; anything else is warned about.
pub open spec fn port_decls(p: PropV) -> PortsOut {
    match p.value {
        PropValV::Value(ValueV::List(items)) => PortsOut {
            ports: items.map_values(|s: Seq<char>| PortV { name: s, side: None }),
            diags: Seq::empty(),
        },
        PropValV::Block(sub) => block_ports(sub),
        PropValV::Value(v) => match prop_text(p) {
            Some(s) => PortsOut { ports: seq![PortV { name: s, side: None }], diags: Seq::empty() },
            None => PortsOut {
                ports: Seq::empty(),
                diags: seq![dg(Severity::Warning, msg_bad_ports(v), Some(p.span))],
            },
        },
    }
}

/// The ports of a declaration, from its `ports` property if any.
pub open spec fn ports_prop(ps: Seq<PropV>) -> PortsOut {
    match first_prop(ps, "ports"@) {
        Some(p) => port_decls(p),
        None => PortsOut { ports: Seq::empty(), diags: Seq::empty() },
    }
}

/// Ports described by a `ports` property, warning about entries that name
/// no side and about values that describe no ports.
fn prop_as_ports(prop: &Prop, _decl_span: Span, diags: &mut DiagEngine) -> (r: Vec<Port>)
    ensures
        ports_view(r@) == port_decls(prop_view(*prop)).ports,
        final(diags)@ == old(diags)@ + port_decls(prop_view(*prop)).diags,
        final(diags).strict == old(diags).strict,
{
    let ghost d0 = diags@;
    match &prop.value {
        PropVal::Value(Value::List(items)) => {
            let mut out: Vec<Port> = Vec::new();
            let mut i: usize = 0;
            while i < items.len()
                invariant
                    i <= items@.len(),
                    out@.len() == i,
                    forall|j: int| 0 <= j < i ==> (#[trigger] out@[j])@ == (PortV { name: items@[j]@, side: None }),
                decreases items@.len() - i,
            {
                out.push(Port { name: items[i].clone(), side: None });
                i = i + 1;
            }
            assert(ports_view(out@) =~= port_decls(prop_view(*prop)).ports);
            assert(diags@ =~= d0 + Seq::<DiagV>::empty());
            out
        },
        PropVal::Value(Value::Str(s)) => {
            assert(diags@ =~= d0 + Seq::<DiagV>::empty());
            let v = vec![Port { name: s.clone(), side: None }];
            assert(ports_view(v@) =~= seq![PortV { name: s@, side: None }]);
            v
        },
        PropVal::Value(Value::Ref(s, None)) => {
            assert(diags@ =~= d0 + Seq::<DiagV>::empty());
            let v = vec![Port { name: s.clone(), side: None }];
            assert(ports_view(v@) =~= seq![PortV { name: s@, side: None }]);
            v
        },
        PropVal::Block(sub) => {
            let ghost sv = props_view(sub@);
            proof {
                lemma_props_view(sub@);
            }
            let mut out: Vec<Port> = Vec::new();
            let mut i: usize = 0;
            assert(sv.subrange(0, 0) =~= Seq::<PropV>::empty());
            while i < sub.len()
                invariant
                    i <= sub@.len(),
                    sv == props_view(sub@),
                    sv.len() == sub@.len(),
                    forall|j: int| 0 <= j < sub@.len() ==> #[trigger] sv[j] == prop_view(sub@[j]),
                    ports_view(out@) == block_ports(sv.subrange(0, i as int)).ports,
                    diags@ == d0 + block_ports(sv.subrange(0, i as int)).diags,
                    diags.strict == old(diags).strict,
                decreases sub@.len() - i,
            {
                let p = &sub[i];
                let ghost q = sv[i as int];
                let side = match prop_as_str(p) {
                    Some(t) => Side::from_str(t),
                    None => None,
                };
                if side.is_none() {
                    if let Some(t) = prop_as_str(p) {
                        if !t.is_empty() {
                            diags.emit(
                                Diagnostic::warning(
                                    cat5("unknown port side `", t, "` for port `", p.key.as_str(), "`"),
                                ).with_span(p.span),
                            );
                        }
                    }
                }
                out.push(Port { name: p.key.clone(), side });
                proof {
                    let post = sv.subrange(0, i + 1);
                    assert(post.drop_last() =~= sv.subrange(0, i as int));
                    assert(post.last() == q);
                    assert(ports_view(out@) =~= block_ports(post).ports);
                    assert(diags@ =~= d0 + block_ports(post).diags);
                }
                i = i + 1;
            }
            assert(sv.subrange(0, i as int) =~= sv);
            out
        },
        PropVal::Value(v) => {
            diags.emit(Diagnostic::warning(bad_ports_message(v)).with_span(prop.span));
            Vec::new()
        },
    }
}

// ---- Unknown properties ----

/// The property keys that a declaration kind understands.
pub open spec fn known_keys(kind: DeclKind) -> Seq<Seq<char>> {
    match kind {
        DeclKind::Equipment => seq![
            "type"@, "at"@, "size"@, "attach"@, "ports"@, "label"@, "orient"@, "zone"@,
        ],
        DeclKind::Valve => seq![
            "type"@, "at"@, "actuator"@, "fail"@, "state"@, "setpoint"@, "ports"@, "label"@,
        ],
        DeclKind::Line => seq![
            "class"@, "from"@, "to"@, "label"@, "size"@, "spec"@, "route"@, "dir"@,
            "flexible"@, "insulated"@,
        ],
        DeclKind::Instrument => seq!["type"@, "at"@, "attach"@, "location"@, "label"@, "loop"@],
        DeclKind::Signal => seq!["type"@, "from"@, "to"@, "label"@],
        DeclKind::Group => seq!["members"@, "label"@, "frame"@, "at"@],
        DeclKind::Area => seq!["label"@, "bounds"@],
        DeclKind::Note => seq!["at"@, "text"@],
        DeclKind::Junction => seq!["at"@],
    }
}

/// Known properties for each declaration kind, used for unknown-property
/// warnings.
fn known_props_for_kind(kind: DeclKind) -> (r: Vec<&'static str>)
    ensures
        strs_view(r@) == known_keys(kind),
{
    let r = match kind {
        DeclKind::Equipment => vec!["type", "at", "size", "attach", "ports", "label", "orient", "zone"],
        DeclKind::Valve => vec!["type", "at", "actuator", "fail", "state", "setpoint", "ports", "label"],
        DeclKind::Line => vec![
            "class", "from", "to", "label", "size", "spec", "route", "dir", "flexible", "insulated",
        ],
        DeclKind::Instrument => vec!["type", "at", "attach", "location", "label", "loop"],
        DeclKind::Signal => vec!["type", "from", "to", "label"],
        DeclKind::Group => vec!["members", "label", "frame", "at"],
        DeclKind::Area => vec!["label", "bounds"],
        DeclKind::Note => vec!["at", "text"],
        DeclKind::Junction => vec!["at"],
    };
    assert(strs_view(r@) =~= known_keys(kind));
    r
}

/// Warnings for the properties whose keys the kind does not know, in order.
pub open spec fn unknown_prop_diags(kind: DeclKind, ps: Seq<PropV>) -> Seq<DiagV>
    decreases ps.len(),
{
    if ps.len() == 0 {
        Seq::empty()
    } else {
        unknown_prop_diags(kind, ps.drop_last()) + if known_keys(kind).contains(ps.last().key) {
            Seq::empty()
        } else {
            seq![dg(Severity::Warning, msg_unknown_prop(ps.last().key, kind), Some(ps.last().span))]
        }
    }
}

/// Warns about each property whose key the declaration's kind does not know.
fn warn_unknown_props(decl: &Decl, diags: &mut DiagEngine)
    ensures
        final(diags)@ == old(diags)@ + unknown_prop_diags(decl.kind, form_props(decl.form@)),
        final(diags).strict == old(diags).strict,
{
    let known = known_props_for_kind(decl.kind);
    let props = decl.form.props();
    let ghost pv = props_view(props@);
    let ghost d0 = diags@;
    proof {
        lemma_props_view(props@);
        assert(pv.subrange(0, 0) =~= Seq::<PropV>::empty());
    }
    let mut i: usize = 0;
    while i < props.len()
        invariant
            i <= props@.len(),
            pv == props_view(props@),
            pv == form_props(decl.form@),
            pv.len() == props@.len(),
            forall|j: int| 0 <= j < props@.len() ==> #[trigger] pv[j] == prop_view(props@[j]),
            strs_view(known@) == known_keys(decl.kind),
            diags@ == d0 + unknown_prop_diags(decl.kind, pv.subrange(0, i as int)),
            diags.strict == old(diags).strict,
        decreases props@.len() - i,
    {
        let prop = &props[i];
        if !contains_str(&known, prop.key.as_str()) {
            diags.emit(
                Diagnostic::warning(
                    cat5("unknown property `", prop.key.as_str(), "` on `", decl.kind.name(), "` declaration"),
                ).with_span(prop.span),
            );
        }
        proof {
            let post = pv.subrange(0, i + 1);
            assert(post.drop_last() =~= pv.subrange(0, i as int));
            assert(post.last() == pv[i as int]);
            assert(diags@ =~= d0 + unknown_prop_diags(decl.kind, post));
        }
        i = i + 1;
    }
    assert(pv.subrange(0, i as int) =~= pv);
}

// ---- Property readers over a declaration's properties ----

/// The text of property `key`, as an owned string.
fn string_prop(props: &[Prop], key: &str) -> (r: Option<String>)
    ensures
        ostr(r) == str_prop(props_view(props@), key@),
{
    match find_prop(props, key) {
        Some(p) => match prop_as_str(p) {
            Some(t) => Some(string_of(t)),
            None => None,
        },
        None => None,
    }
}

/// The grid position given by property `key`.
fn gridpos_prop(props: &[Prop], key: &str) -> (r: Option<GridPos>)
    ensures
        r == pos_prop(props_view(props@), key@),
{
    match find_prop(props, key) {
        Some(p) => prop_as_gridpos(p),
        None => None,
    }
}

/// The reference given by property `key`.
fn objref_prop(props: &[Prop], key: &str) -> (r: Option<ObjRef>)
    ensures
        oref(r) == ref_prop(props_view(props@), key@),
{
    match find_prop(props, key) {
        Some(p) => prop_as_ref(p),
        None => None,
    }
}

/// A yes/no property: `true` or `yes` turn it on.
fn flag(props: &[Prop], key: &str) -> (r: bool)
    ensures
        r == flag_prop(props_view(props@), key@),
{
    match find_prop(props, key) {
        Some(p) => match prop_as_str(p) {
            Some(v) => str_eq(v, "true") || str_eq(v, "yes"),
            None => false,
        },
        None => false,
    }
}

/// The ports declared by the `ports` property, if any.
fn ports_of_decl(props: &[Prop], decl_span: Span, diags: &mut DiagEngine) -> (r: Vec<Port>)
    ensures
        ports_view(r@) == ports_prop(props_view(props@)).ports,
        final(diags)@ == old(diags)@ + ports_prop(props_view(props@)).diags,
        final(diags).strict == old(diags).strict,
{
    if let Some(p) = find_prop(props, "ports") {
        prop_as_ports(p, decl_span, diags)
    } else {
        assert(diags@ =~= old(diags)@ + Seq::<DiagV>::empty());
        let v: Vec<Port> = Vec::new();
        assert(ports_view(v@) =~= Seq::<PortV>::empty());
        v
    }
}

/// The error text for a declaration that lacks a required property.
fn missing_message(kind: DeclKind, id: &str, prop: &str) -> (r: String)
    ensures
        r@ == msg_missing(kind, id@, prop@),
{
    let mut m = cat5(kind.name(), " `", id, "` is missing required property `", prop);
    push_str(&mut m, "`");
    proof {
        assert(m@ =~= msg_missing(kind, id@, prop@));
    }
    m
}

/// Reports a missing required property on the declaration.
fn report_missing(decl: &Decl, kind: DeclKind, prop: &str, diags: &mut DiagEngine)
    ensures
        final(diags)@ == old(diags)@.push(dg(Severity::Error, msg_missing(kind, decl.id@, prop@), Some(decl.span))),
        final(diags).strict == old(diags).strict,
{
    diags.emit(Diagnostic::error(missing_message(kind, decl.id.as_str(), prop)).with_span(decl.span));
}

// ---- Normalizers, one per kind ----

/// What normalizing one declaration gives: the object, if its required
/// properties are there, and the diagnostics reported on the way.
pub struct NormOut<T> {
    pub obj: Option<T>,
    pub diags: Seq<DiagV>,
}

/// An optional value, taken by view.
pub open spec fn view_opt<T: View>(o: Option<T>) -> Option<T::V> {
    match o {
        Some(x) => Some(x@),
        None => None,
    }
}

pub open spec fn missing(d: DeclV, kind: DeclKind, prop: Seq<char>) -> DiagV {
    dg(Severity::Error, msg_missing(kind, d.id, prop), Some(d.span))
}

pub open spec fn norm_equipment(d: DeclV) -> NormOut<EquipmentV> {
    let ps = form_props(d.form);
    let w = unknown_prop_diags(d.kind, ps);
    match str_prop(ps, "type"@) {
        None => NormOut { obj: None, diags: w.push(missing(d, DeclKind::Equipment, "type"@)) },
        Some(t) => {
            let pr = ports_prop(ps);
            NormOut {
                obj: Some(
                    EquipmentV {
                        id: d.id,
                        equip_type: t,
                        label: str_prop(ps, "label"@),
                        pos: pos_prop(ps, "at"@),
                        ports: pr.ports,
                        size: pos_prop(ps, "size"@),
                        attach: ref_prop(ps, "attach"@),
                    },
                ),
                diags: w + pr.diags,
            }
        },
    }
}

fn normalize_equipment(decl: &Decl, diags: &mut DiagEngine) -> (r: Option<Equipment>)
    ensures
        view_opt(r) == norm_equipment(decl@).obj,
        final(diags)@ == old(diags)@ + norm_equipment(decl@).diags,
        final(diags).strict == old(diags).strict,
{
    let ghost d0 = diags@;
    warn_unknown_props(decl, diags);
    let props = decl.form.props();
    let equip_type = match find_prop(props, "type") {
        Some(p) => match prop_as_str(p) {
            Some(t) => string_of(t),
            None => {
                report_missing(decl, DeclKind::Equipment, "type", diags);
                return None;
            },
        },
        None => {
            report_missing(decl, DeclKind::Equipment, "type", diags);
            return None;
        },
    };
    let label = string_prop(props, "label");
    let pos = gridpos_prop(props, "at");
    let size = gridpos_prop(props, "size");
    let attach = objref_prop(props, "attach");
    let ports = ports_of_decl(props, decl.span, diags);
    let e = Equipment { id: decl.id.clone(), equip_type, label, pos, ports, size, attach };
    assert(diags@ =~= d0 + norm_equipment(decl@).diags);
    Some(e)
}

pub open spec fn norm_valve(d: DeclV) -> NormOut<ValveV> {
    let ps = form_props(d.form);
    let w = unknown_prop_diags(d.kind, ps);
    match str_prop(ps, "type"@) {
        None => NormOut { obj: None, diags: w.push(missing(d, DeclKind::Valve, "type"@)) },
        Some(t) => {
            let pr = ports_prop(ps);
            NormOut {
                obj: Some(
                    ValveV {
                        id: d.id,
                        valve_type: t,
                        label: str_prop(ps, "label"@),
                        pos: pos_prop(ps, "at"@),
                        ports: pr.ports,
                        actuator: str_prop(ps, "actuator"@),
                        fail: str_prop(ps, "fail"@),
                        state: str_prop(ps, "state"@),
                        setpoint: str_prop(ps, "setpoint"@),
                    },
                ),
                diags: w + pr.diags,
            }
        },
    }
}

fn normalize_valve(decl: &Decl, diags: &mut DiagEngine) -> (r: Option<Valve>)
    ensures
        view_opt(r) == norm_valve(decl@).obj,
        final(diags)@ == old(diags)@ + norm_valve(decl@).diags,
        final(diags).strict == old(diags).strict,
{
    let ghost d0 = diags@;
    warn_unknown_props(decl, diags);
    let props = decl.form.props();
    let valve_type = match find_prop(props, "type") {
        Some(p) => match prop_as_str(p) {
            Some(t) => string_of(t),
            None => {
                report_missing(decl, DeclKind::Valve, "type", diags);
                return None;
            },
        },
        None => {
            report_missing(decl, DeclKind::Valve, "type", diags);
            return None;
        },
    };
    let label = string_prop(props, "label");
    let pos = gridpos_prop(props, "at");
    let actuator = string_prop(props, "actuator");
    let fail = string_prop(props, "fail");
    let state = string_prop(props, "state");
    let setpoint = string_prop(props, "setpoint");
    let ports = ports_of_decl(props, decl.span, diags);
    let v = Valve {
        id: decl.id.clone(),
        valve_type,
        label,
        pos,
        ports,
        actuator,
        fail,
        state,
        setpoint,
    };
    assert(diags@ =~= d0 + norm_valve(decl@).diags);
    Some(v)
}

pub open spec fn norm_line(d: DeclV) -> NormOut<LineV> {
    let ps = form_props(d.form);
    let w = unknown_prop_diags(d.kind, ps);
    match str_prop(ps, "class"@) {
        None => NormOut { obj: None, diags: w.push(missing(d, DeclKind::Line, "class"@)) },
        Some(c) => match ref_prop(ps, "from"@) {
            None => NormOut { obj: None, diags: w.push(missing(d, DeclKind::Line, "from"@)) },
            Some(from) => NormOut {
                obj: Some(
                    LineV {
                        id: d.id,
                        class: c,
                        from,
                        to: ref_prop(ps, "to"@),
                        label: str_prop(ps, "label"@),
                        flexible: flag_prop(ps, "flexible"@),
                        insulated: flag_prop(ps, "insulated"@),
                    },
                ),
                diags: w,
            },
        },
    }
}

fn normalize_line(decl: &Decl, diags: &mut DiagEngine) -> (r: Option<Line>)
    ensures
        view_opt(r) == norm_line(decl@).obj,
        final(diags)@ == old(diags)@ + norm_line(decl@).diags,
        final(diags).strict == old(diags).strict,
{
    let ghost d0 = diags@;
    warn_unknown_props(decl, diags);
    let props = decl.form.props();
    let class = match find_prop(props, "class") {
        Some(p) => match prop_as_str(p) {
            Some(c) => string_of(c),
            None => {
                report_missing(decl, DeclKind::Line, "class", diags);
                return None;
            },
        },
        None => {
            report_missing(decl, DeclKind::Line, "class", diags);
            return None;
        },
    };
    let from = match objref_prop(props, "from") {
        Some(r) => r,
        None => {
            report_missing(decl, DeclKind::Line, "from", diags);
            return None;
        },
    };
    // `to` is optional: a line without one is an open-ended stub (drain,
    // vent, sample point) drawn outward from `from`.
    let to = objref_prop(props, "to");
    let label = string_prop(props, "label");
    let flexible = flag(props, "flexible");
    let insulated = flag(props, "insulated");
    Some(Line { id: decl.id.clone(), class, from, to, label, flexible, insulated })
}

pub open spec fn norm_instrument(d: DeclV) -> NormOut<InstrumentV> {
    let ps = form_props(d.form);
    let w = unknown_prop_diags(d.kind, ps);
    match str_prop(ps, "type"@) {
        None => NormOut { obj: None, diags: w.push(missing(d, DeclKind::Instrument, "type"@)) },
        Some(t) => NormOut {
            obj: Some(
                InstrumentV {
                    id: d.id,
                    instr_type: t,
                    label: str_prop(ps, "label"@),
                    pos: pos_prop(ps, "at"@),
                    attach: ref_prop(ps, "attach"@),
                    location: str_prop(ps, "location"@),
                },
            ),
            diags: w,
        },
    }
}

fn normalize_instrument(decl: &Decl, diags: &mut DiagEngine) -> (r: Option<Instrument>)
    ensures
        view_opt(r) == norm_instrument(decl@).obj,
        final(diags)@ == old(diags)@ + norm_instrument(decl@).diags,
        final(diags).strict == old(diags).strict,
{
    warn_unknown_props(decl, diags);
    let props = decl.form.props();
    let instr_type = match find_prop(props, "type") {
        Some(p) => match prop_as_str(p) {
            Some(t) => string_of(t),
            None => {
                report_missing(decl, DeclKind::Instrument, "type", diags);
                return None;
            },
        },
        None => {
            report_missing(decl, DeclKind::Instrument, "type", diags);
            return None;
        },
    };
    let label = string_prop(props, "label");
    let pos = gridpos_prop(props, "at");
    let attach = objref_prop(props, "attach");
    let location = string_prop(props, "location");
    Some(Instrument { id: decl.id.clone(), instr_type, label, pos, attach, location })
}

pub open spec fn norm_signal(d: DeclV) -> NormOut<SignalV> {
    let ps = form_props(d.form);
    let w = unknown_prop_diags(d.kind, ps);
    match str_prop(ps, "type"@) {
        None => NormOut { obj: None, diags: w.push(missing(d, DeclKind::Signal, "type"@)) },
        Some(t) => match ref_prop(ps, "from"@) {
            None => NormOut { obj: None, diags: w.push(missing(d, DeclKind::Signal, "from"@)) },
            Some(from) => match ref_prop(ps, "to"@) {
                None => NormOut { obj: None, diags: w.push(missing(d, DeclKind::Signal, "to"@)) },
                Some(to) => NormOut {
                    obj: Some(
                        SignalV { id: d.id, sig_type: t, from, to, label: str_prop(ps, "label"@) },
                    ),
                    diags: w,
                },
            },
        },
    }
}

fn normalize_signal(decl: &Decl, diags: &mut DiagEngine) -> (r: Option<Signal>)
    ensures
        view_opt(r) == norm_signal(decl@).obj,
        final(diags)@ == old(diags)@ + norm_signal(decl@).diags,
        final(diags).strict == old(diags).strict,
{
    warn_unknown_props(decl, diags);
    let props = decl.form.props();
    let sig_type = match find_prop(props, "type") {
        Some(p) => match prop_as_str(p) {
            Some(t) => string_of(t),
            None => {
                report_missing(decl, DeclKind::Signal, "type", diags);
                return None;
            },
        },
        None => {
            report_missing(decl, DeclKind::Signal, "type", diags);
            return None;
        },
    };
    let from = match objref_prop(props, "from") {
        Some(r) => r,
        None => {
            report_missing(decl, DeclKind::Signal, "from", diags);
            return None;
        },
    };
    let to = match objref_prop(props, "to") {
        Some(r) => r,
        None => {
            report_missing(decl, DeclKind::Signal, "to", diags);
            return None;
        },
    };
    let label = string_prop(props, "label");
    Some(Signal { id: decl.id.clone(), sig_type, from, to, label })
}

pub open spec fn norm_junction(d: DeclV) -> NormOut<JunctionV> {
    let ps = form_props(d.form);
    NormOut {
        obj: Some(JunctionV { id: d.id, pos: pos_prop(ps, "at"@) }),
        diags: unknown_prop_diags(d.kind, ps),
    }
}

fn normalize_junction(decl: &Decl, diags: &mut DiagEngine) -> (r: Junction)
    ensures
        norm_junction(decl@).obj == Some(r@),
        final(diags)@ == old(diags)@ + norm_junction(decl@).diags,
        final(diags).strict == old(diags).strict,
{
    warn_unknown_props(decl, diags);
    let props = decl.form.props();
    let pos = gridpos_prop(props, "at");
    Junction { id: decl.id.clone(), pos }
}

pub open spec fn norm_note(d: DeclV) -> NormOut<NoteV> {
    let ps = form_props(d.form);
    NormOut {
        obj: Some(NoteV { id: d.id, text: str_prop(ps, "text"@), pos: pos_prop(ps, "at"@) }),
        diags: unknown_prop_diags(d.kind, ps),
    }
}

fn normalize_note(decl: &Decl, diags: &mut DiagEngine) -> (r: Note)
    ensures
        norm_note(decl@).obj == Some(r@),
        final(diags)@ == old(diags)@ + norm_note(decl@).diags,
        final(diags).strict == old(diags).strict,
{
    warn_unknown_props(decl, diags);
    let props = decl.form.props();
    let pos = gridpos_prop(props, "at");
    let text = string_prop(props, "text");
    Note { id: decl.id.clone(), text, pos }
}

pub open spec fn norm_group(d: DeclV) -> NormOut<GroupV> {
    let ps = form_props(d.form);
    let w = unknown_prop_diags(d.kind, ps);
    let made = |members: Seq<Seq<char>>|
        GroupV {
            id: d.id,
            members,
            label: str_prop(ps, "label"@),
            frame: flag_prop(ps, "frame"@),
        };
    match first_prop(ps, "members"@) {
        None => NormOut { obj: None, diags: w.push(missing(d, DeclKind::Group, "members"@)) },
        Some(p) => match p.value {
            PropValV::Value(ValueV::List(items)) => NormOut { obj: Some(made(items)), diags: w },
            _ => match prop_text(p) {
                Some(s) => NormOut { obj: Some(made(seq![s])), diags: w },
                None => NormOut {
                    obj: None,
                    diags: w.push(dg(Severity::Error, msg_members_list(d.id), Some(p.span))),
                },
            },
        },
    }
}

fn normalize_group(decl: &Decl, diags: &mut DiagEngine) -> (r: Option<Group>)
    ensures
        view_opt(r) == norm_group(decl@).obj,
        final(diags)@ == old(diags)@ + norm_group(decl@).diags,
        final(diags).strict == old(diags).strict,
{
    warn_unknown_props(decl, diags);
    let props = decl.form.props();
    let members: Vec<String> = match find_prop(props, "members") {
        Some(p) => match &p.value {
            PropVal::Value(Value::List(items)) => items.clone(),
            _ => match prop_as_str(p) {
                Some(s) => vec![string_of(s)],
                None => {
                    let mut m = string_of("group `");
                    push_str(&mut m, decl.id.as_str());
                    push_str(&mut m, "` property `members` must be a comma-separated list");
                    diags.emit(Diagnostic::error(m).with_span(p.span));
                    return None;
                },
            },
        },
        None => {
            report_missing(decl, DeclKind::Group, "members", diags);
            return None;
        },
    };
    let label = string_prop(props, "label");
    let frame = flag(props, "frame");
    let g = Group { id: decl.id.clone(), members, label, frame };
    assert(g@.members =~= norm_group(decl@).obj.unwrap().members);
    Some(g)
}

pub open spec fn norm_area(d: DeclV) -> NormOut<AreaV> {
    let ps = form_props(d.form);
    NormOut {
        obj: Some(AreaV { id: d.id, label: str_prop(ps, "label"@), bounds: None }),
        diags: unknown_prop_diags(d.kind, ps),
    }
}

/// Areas keep their id and label; their bounds are not read.
fn normalize_area(decl: &Decl, diags: &mut DiagEngine) -> (r: Area)
    ensures
        norm_area(decl@).obj == Some(r@),
        final(diags)@ == old(diags)@ + norm_area(decl@).diags,
        final(diags).strict == old(diags).strict,
{
    warn_unknown_props(decl, diags);
    let props = decl.form.props();
    let label = string_prop(props, "label");
    Area { id: decl.id.clone(), label, bounds: None }
}

// ---- The whole document ----

/// A diagram under construction and the diagnostics reported so far.
pub struct NormState {
    pub diagram: DiagramV,
    pub diags: Seq<DiagV>,
}

/// The error for a declaration whose id is already taken.
pub open spec fn duplicate_diag(d: DeclV) -> DiagV {
    DiagV {
        severity: Severity::Error,
        message: msg_duplicate(d.id),
        span: Some(d.span),
        note: Some(note_duplicate()),
        help: None,
    }
}

/// One declaration added to the diagram: refused when its id is taken,
/// otherwise normalized by kind and, if that succeeds, stored under its id
/// and appended to the declaration order.
pub open spec fn norm_decl(g: DiagramV, d: DeclV) -> NormState {
    if id_in(g, d.id) {
        NormState { diagram: g, diags: seq![duplicate_diag(d)] }
    } else {
        let ord = g.order.push((d.kind, d.id));
        match d.kind {
            DeclKind::Equipment => {
                let r = norm_equipment(d);
                NormState {
                    diagram: match r.obj {
                        Some(e) => DiagramV { equipment: g.equipment.push((d.id, e)), order: ord, ..g },
                        None => g,
                    },
                    diags: r.diags,
                }
            },
            DeclKind::Valve => {
                let r = norm_valve(d);
                NormState {
                    diagram: match r.obj {
                        Some(v) => DiagramV { valves: g.valves.push((d.id, v)), order: ord, ..g },
                        None => g,
                    },
                    diags: r.diags,
                }
            },
            DeclKind::Line => {
                let r = norm_line(d);
                NormState {
                    diagram: match r.obj {
                        Some(l) => DiagramV { lines: g.lines.push((d.id, l)), order: ord, ..g },
                        None => g,
                    },
                    diags: r.diags,
                }
            },
            DeclKind::Instrument => {
                let r = norm_instrument(d);
                NormState {
                    diagram: match r.obj {
                        Some(i) => DiagramV {
                            instruments: g.instruments.push((d.id, i)),
                            order: ord,
                            ..g
                        },
                        None => g,
                    },
                    diags: r.diags,
                }
            },
            DeclKind::Signal => {
                let r = norm_signal(d);
                NormState {
                    diagram: match r.obj {
                        Some(s) => DiagramV { signals: g.signals.push((d.id, s)), order: ord, ..g },
                        None => g,
                    },
                    diags: r.diags,
                }
            },
            DeclKind::Junction => {
                let r = norm_junction(d);
                NormState {
                    diagram: DiagramV {
                        junctions: g.junctions.push((d.id, r.obj.unwrap())),
                        order: ord,
                        ..g
                    },
                    diags: r.diags,
                }
            },
            DeclKind::Note => {
                let r = norm_note(d);
                NormState {
                    diagram: DiagramV { notes: g.notes.push((d.id, r.obj.unwrap())), order: ord, ..g },
                    diags: r.diags,
                }
            },
            DeclKind::Group => {
                let r = norm_group(d);
                NormState {
                    diagram: match r.obj {
                        Some(x) => DiagramV { groups: g.groups.push((d.id, x)), order: ord, ..g },
                        None => g,
                    },
                    diags: r.diags,
                }
            },
            DeclKind::Area => {
                let r = norm_area(d);
                NormState {
                    diagram: DiagramV { areas: g.areas.push((d.id, r.obj.unwrap())), order: ord, ..g },
                    diags: r.diags,
                }
            },
        }
    }
}

/// The declarations normalized one after another, starting from the empty
/// diagram.
pub open spec fn norm_seq(ds: Seq<DeclV>) -> NormState
    decreases ds.len(),
{
    if ds.len() == 0 {
        NormState { diagram: empty_diagram(), diags: Seq::empty() }
    } else {
        let s = norm_seq(ds.drop_last());
        let t = norm_decl(s.diagram, ds.last());
        NormState { diagram: t.diagram, diags: s.diags + t.diags }
    }
}

/// Stores `v` under a key that the map does not hold yet.
fn add_entry<V: View>(m: &mut IdMap<V>, key: String, v: V)
    requires
        old(m).wf(),
        !has_key(entries_view(old(m).entries()), key@),
    ensures
        final(m).wf(),
        entries_view(final(m).entries()) == entries_view(old(m).entries()).push((key@, v@)),
{
    let ghost k = key@;
    let ghost e0 = m.entries();
    proof {
        m.lemma_wf();
        lemma_entries_view(e0, k);
        assert(!has_key(e0, k));
        assert(entries_insert(e0, k, v) == e0.push((k, v)));
    }
    m.insert(key, v);
    assert(entries_view(m.entries()) =~= entries_view(e0).push((k, v@)));
}

/// Appends an object to the declaration order.
fn push_order(order: &mut Vec<(DeclKind, String)>, kind: DeclKind, id: &String)
    ensures
        order_view(final(order)@) == order_view(old(order)@).push((kind, id@)),
{
    order.push((kind, id.clone()));
    assert(order_view(order@) =~= order_view(old(order)@).push((kind, id@)));
}

/// Normalizes every declaration of the document, in order, into a diagram.
/// A declaration whose id is already taken is reported and skipped; one
/// that lacks a required property is reported and left out.
pub fn normalize(doc: &Document, diags: &mut DiagEngine) -> (r: Diagram)
    ensures
        r.wf(),
        r@ == norm_seq(doc@).diagram,
        final(diags)@ == old(diags)@ + norm_seq(doc@).diags,
        final(diags).strict == old(diags).strict,
{
    let mut diagram = Diagram::new();
    let ghost ds = doc@;
    let ghost d0 = diags@;
    assert(ds.subrange(0, 0) =~= Seq::<DeclV>::empty());
    assert(d0 + Seq::<DiagV>::empty() =~= d0);
    let mut i: usize = 0;
    while i < doc.decls.len()
        invariant
            i <= doc.decls@.len(),
            ds == doc@,
            ds.len() == doc.decls@.len(),
            diagram.wf(),
            diagram@ == norm_seq(ds.subrange(0, i as int)).diagram,
            diags@ == d0 + norm_seq(ds.subrange(0, i as int)).diags,
            diags.strict == old(diags).strict,
        decreases doc.decls@.len() - i,
    {
        let decl = &doc.decls[i];
        let ghost g = diagram@;
        let ghost dd = diags@;
        assert(decl@ == ds[i as int]);
        let taken = diagram.id_exists(decl.id.as_str());
        if taken {
            let mut m = string_of("duplicate declaration ID `");
            push_str(&mut m, decl.id.as_str());
            push_str(&mut m, "`");
            diags.emit(
                Diagnostic::error(m)
                    .with_span(decl.span)
                    .with_note(string_of("each ID must be unique across all declarations")),
            );
        } else {
            match decl.kind {
                DeclKind::Equipment => {
                    if let Some(e) = normalize_equipment(decl, diags) {
                        let key = e.id.clone();
                        add_entry(&mut diagram.equipment, key, e);
                        push_order(&mut diagram.order, DeclKind::Equipment, &decl.id);
                    }
                },
                DeclKind::Valve => {
                    if let Some(v) = normalize_valve(decl, diags) {
                        let key = v.id.clone();
                        add_entry(&mut diagram.valves, key, v);
                        push_order(&mut diagram.order, DeclKind::Valve, &decl.id);
                    }
                },
                DeclKind::Line => {
                    if let Some(l) = normalize_line(decl, diags) {
                        let key = l.id.clone();
                        add_entry(&mut diagram.lines, key, l);
                        push_order(&mut diagram.order, DeclKind::Line, &decl.id);
                    }
                },
                DeclKind::Instrument => {
                    if let Some(x) = normalize_instrument(decl, diags) {
                        let key = x.id.clone();
                        add_entry(&mut diagram.instruments, key, x);
                        push_order(&mut diagram.order, DeclKind::Instrument, &decl.id);
                    }
                },
                DeclKind::Signal => {
                    if let Some(x) = normalize_signal(decl, diags) {
                        let key = x.id.clone();
                        add_entry(&mut diagram.signals, key, x);
                        push_order(&mut diagram.order, DeclKind::Signal, &decl.id);
                    }
                },
                DeclKind::Junction => {
                    let j = normalize_junction(decl, diags);
                    let key = j.id.clone();
                    add_entry(&mut diagram.junctions, key, j);
                    push_order(&mut diagram.order, DeclKind::Junction, &decl.id);
                },
                DeclKind::Note => {
                    let n = normalize_note(decl, diags);
                    let key = n.id.clone();
                    add_entry(&mut diagram.notes, key, n);
                    push_order(&mut diagram.order, DeclKind::Note, &decl.id);
                },
                DeclKind::Group => {
                    if let Some(x) = normalize_group(decl, diags) {
                        let key = x.id.clone();
                        add_entry(&mut diagram.groups, key, x);
                        push_order(&mut diagram.order, DeclKind::Group, &decl.id);
                    }
                },
                DeclKind::Area => {
                    let a = normalize_area(decl, diags);
                    let key = a.id.clone();
                    add_entry(&mut diagram.areas, key, a);
                    push_order(&mut diagram.order, DeclKind::Area, &decl.id);
                },
            }
        }
        proof {
            let pre = ds.subrange(0, i as int);
            let post = ds.subrange(0, i + 1);
            assert(post.drop_last() =~= pre);
            assert(post.last() == ds[i as int]);
            let t = norm_decl(g, ds[i as int]);
            assert(diagram@ == t.diagram);
            assert(diags@ == dd + t.diags);
            assert(diags@ =~= d0 + norm_seq(post).diags);
        }
        i = i + 1;
    }
    assert(ds.subrange(0, i as int) =~= ds);
    diagram
}

// ---- Laws of normalization ----

/// Whether `x` is the id of some entry of a declaration order.
pub open spec fn in_order(o: Seq<(DeclKind, Seq<char>)>, x: Seq<char>) -> bool {
    exists|i: int| 0 <= i < o.len() && (#[trigger] o[i]).1 == x
}

/// Every id of a diagram occurs once in its declaration order, the order
/// holds exactly the ids of the stored objects, and each object is stored
/// under its own id.
pub open spec fn ids_consistent(g: DiagramV) -> bool {
    &&& forall|i: int, j: int|
        0 <= i < j < g.order.len() ==> (#[trigger] g.order[i]).1 != (#[trigger] g.order[j]).1
    &&& forall|x: Seq<char>| #[trigger] id_in(g, x) <==> in_order(g.order, x)
    &&& forall|i: int| 0 <= i < g.equipment.len() ==> (#[trigger] g.equipment[i]).0 == g.equipment[i].1.id
    &&& forall|i: int| 0 <= i < g.valves.len() ==> (#[trigger] g.valves[i]).0 == g.valves[i].1.id
    &&& forall|i: int| 0 <= i < g.lines.len() ==> (#[trigger] g.lines[i]).0 == g.lines[i].1.id
    &&& forall|i: int|
        0 <= i < g.instruments.len() ==> (#[trigger] g.instruments[i]).0 == g.instruments[i].1.id
    &&& forall|i: int| 0 <= i < g.signals.len() ==> (#[trigger] g.signals[i]).0 == g.signals[i].1.id
    &&& forall|i: int|
        0 <= i < g.junctions.len() ==> (#[trigger] g.junctions[i]).0 == g.junctions[i].1.id
    &&& forall|i: int| 0 <= i < g.notes.len() ==> (#[trigger] g.notes[i]).0 == g.notes[i].1.id
    &&& forall|i: int| 0 <= i < g.groups.len() ==> (#[trigger] g.groups[i]).0 == g.groups[i].1.id
    &&& forall|i: int| 0 <= i < g.areas.len() ==> (#[trigger] g.areas[i]).0 == g.areas[i].1.id
}

/// Adding an entry adds exactly its key.
proof fn lemma_has_key_push<T>(s: Seq<(Seq<char>, T)>, k: Seq<char>, v: T, x: Seq<char>)
    ensures
        has_key(s.push((k, v)), x) == (has_key(s, x) || k == x),
{
    let t = s.push((k, v));
    if has_key(s, x) {
        let i = choose|i: int| 0 <= i < s.len() && (#[trigger] s[i]).0 == x;
        assert(t[i].0 == x);
    }
    if k == x {
        assert(t[s.len() as int].0 == x);
    }
    if has_key(t, x) {
        let i = choose|i: int| 0 <= i < t.len() && (#[trigger] t[i]).0 == x;
        if i < s.len() {
            assert(s[i].0 == x);
        }
    }
}

/// Appending a fresh id to the order keeps its ids distinct and adds
/// exactly that id.
proof fn lemma_order_push(o: Seq<(DeclKind, Seq<char>)>, kind: DeclKind, id: Seq<char>)
    requires
        forall|i: int, j: int| 0 <= i < j < o.len() ==> (#[trigger] o[i]).1 != (#[trigger] o[j]).1,
        forall|i: int| 0 <= i < o.len() ==> (#[trigger] o[i]).1 != id,
    ensures
        forall|i: int, j: int|
            0 <= i < j < o.push((kind, id)).len() ==> (#[trigger] o.push((kind, id))[i]).1 != (
            #[trigger] o.push((kind, id))[j]).1,
        forall|x: Seq<char>| #[trigger] in_order(o.push((kind, id)), x) <==> (in_order(o, x) || x == id),
{
    let t = o.push((kind, id));
    assert forall|x: Seq<char>| #[trigger] in_order(t, x) <==> (in_order(o, x) || x == id) by {
        if exists|i: int| 0 <= i < t.len() && (#[trigger] t[i]).1 == x {
            let i = choose|i: int| 0 <= i < t.len() && (#[trigger] t[i]).1 == x;
            if i < o.len() {
                assert(o[i].1 == x);
            }
        }
        if exists|i: int| 0 <= i < o.len() && (#[trigger] o[i]).1 == x {
            let i = choose|i: int| 0 <= i < o.len() && (#[trigger] o[i]).1 == x;
            assert(t[i].1 == x);
        }
        if x == id {
            assert(t[o.len() as int].1 == x);
        }
    }
}

/// One declaration keeps the ids of the diagram consistent.
proof fn lemma_norm_decl_consistent(g: DiagramV, d: DeclV)
    requires
        ids_consistent(g),
    ensures
        ids_consistent(norm_decl(g, d).diagram),
{
    if !id_in(g, d.id) {
        assert forall|i: int| 0 <= i < g.order.len() implies (#[trigger] g.order[i]).1 != d.id by {
            if g.order[i].1 == d.id {
                assert(in_order(g.order, d.id));
            }
        }
        lemma_order_push(g.order, d.kind, d.id);
        let h = norm_decl(g, d).diagram;
        if h != g {
            assert forall|x: Seq<char>| id_in(h, x) <==> (id_in(g, x) || x == d.id) by {
                match d.kind {
                    DeclKind::Equipment => lemma_has_key_push(g.equipment, d.id, norm_equipment(d).obj.unwrap(), x),
                    DeclKind::Valve => lemma_has_key_push(g.valves, d.id, norm_valve(d).obj.unwrap(), x),
                    DeclKind::Line => lemma_has_key_push(g.lines, d.id, norm_line(d).obj.unwrap(), x),
                    DeclKind::Instrument => lemma_has_key_push(g.instruments, d.id, norm_instrument(d).obj.unwrap(), x),
                    DeclKind::Signal => lemma_has_key_push(g.signals, d.id, norm_signal(d).obj.unwrap(), x),
                    DeclKind::Junction => lemma_has_key_push(g.junctions, d.id, norm_junction(d).obj.unwrap(), x),
                    DeclKind::Note => lemma_has_key_push(g.notes, d.id, norm_note(d).obj.unwrap(), x),
                    DeclKind::Group => lemma_has_key_push(g.groups, d.id, norm_group(d).obj.unwrap(), x),
                    DeclKind::Area => lemma_has_key_push(g.areas, d.id, norm_area(d).obj.unwrap(), x),
                }
            }
            assert(h.order == g.order.push((d.kind, d.id)));
        }
    }
}

/// Normalization never stores two objects under one id, across all kinds:
/// the declaration order lists each stored id once, exactly the stored ids
/// appear in it, and every object sits under its own id.
pub proof fn lemma_normalize_ids_unique(ds: Seq<DeclV>)
    ensures
        ids_consistent(norm_seq(ds).diagram),
    decreases ds.len(),
{
    if ds.len() == 0 {
        let g = empty_diagram();
        assert forall|x: Seq<char>| !id_in(g, x) by {}
    } else {
        lemma_normalize_ids_unique(ds.drop_last());
        lemma_norm_decl_consistent(norm_seq(ds.drop_last()).diagram, ds.last());
    }
}

/// Whether the map of kind `k` holds id `x`.
pub open spec fn kind_has(g: DiagramV, k: DeclKind, x: Seq<char>) -> bool {
    match k {
        DeclKind::Equipment => has_key(g.equipment, x),
        DeclKind::Valve => has_key(g.valves, x),
        DeclKind::Line => has_key(g.lines, x),
        DeclKind::Instrument => has_key(g.instruments, x),
        DeclKind::Signal => has_key(g.signals, x),
        DeclKind::Junction => has_key(g.junctions, x),
        DeclKind::Note => has_key(g.notes, x),
        DeclKind::Group => has_key(g.groups, x),
        DeclKind::Area => has_key(g.areas, x),
    }
}

/// Whether the declaration order lists `(k, x)`.
pub open spec fn order_has(o: Seq<(DeclKind, Seq<char>)>, k: DeclKind, x: Seq<char>) -> bool {
    exists|i: int| 0 <= i < o.len() && (#[trigger] o[i]) == (k, x)
}

/// The order records each object with the kind of the map it is stored in.
pub open spec fn kinds_match(g: DiagramV) -> bool {
    forall|k: DeclKind, x: Seq<char>|
        #![trigger kind_has(g, k, x)]
        #![trigger order_has(g.order, k, x)]
        kind_has(g, k, x) <==> order_has(g.order, k, x)
}

/// One declaration keeps the kinds of the order matching the maps.
proof fn lemma_norm_decl_kinds(g: DiagramV, d: DeclV)
    requires
        kinds_match(g),
    ensures
        kinds_match(norm_decl(g, d).diagram),
{
    let h = norm_decl(g, d).diagram;
    if !id_in(g, d.id) && h != g {
        assert(h.order == g.order.push((d.kind, d.id)));
        assert forall|k: DeclKind, x: Seq<char>|
            order_has(h.order, k, x) <==> (order_has(g.order, k, x) || (k == d.kind && x == d.id)) by {
            let t = g.order.push((d.kind, d.id));
            if order_has(t, k, x) {
                let i = choose|i: int| 0 <= i < t.len() && (#[trigger] t[i]) == (k, x);
                if i < g.order.len() {
                    assert(g.order[i] == (k, x));
                }
            }
            if order_has(g.order, k, x) {
                let i = choose|i: int| 0 <= i < g.order.len() && (#[trigger] g.order[i]) == (k, x);
                assert(t[i] == (k, x));
            }
            if k == d.kind && x == d.id {
                assert(t[g.order.len() as int] == (k, x));
            }
        }
        assert forall|k: DeclKind, x: Seq<char>|
            kind_has(h, k, x) <==> (kind_has(g, k, x) || (k == d.kind && x == d.id)) by {
            match d.kind {
                DeclKind::Equipment => lemma_has_key_push(g.equipment, d.id, norm_equipment(d).obj.unwrap(), x),
                DeclKind::Valve => lemma_has_key_push(g.valves, d.id, norm_valve(d).obj.unwrap(), x),
                DeclKind::Line => lemma_has_key_push(g.lines, d.id, norm_line(d).obj.unwrap(), x),
                DeclKind::Instrument => lemma_has_key_push(g.instruments, d.id, norm_instrument(d).obj.unwrap(), x),
                DeclKind::Signal => lemma_has_key_push(g.signals, d.id, norm_signal(d).obj.unwrap(), x),
                DeclKind::Junction => lemma_has_key_push(g.junctions, d.id, norm_junction(d).obj.unwrap(), x),
                DeclKind::Note => lemma_has_key_push(g.notes, d.id, norm_note(d).obj.unwrap(), x),
                DeclKind::Group => lemma_has_key_push(g.groups, d.id, norm_group(d).obj.unwrap(), x),
                DeclKind::Area => lemma_has_key_push(g.areas, d.id, norm_area(d).obj.unwrap(), x),
            }
        }
    }
}

/// Normalization records every object in the declaration order with the
/// kind of the map that holds it, and no id sits in two maps.
pub proof fn lemma_normalize_kinds_match(ds: Seq<DeclV>)
    ensures
        kinds_match(norm_seq(ds).diagram),
        forall|k1: DeclKind, k2: DeclKind, x: Seq<char>|
            kind_has(norm_seq(ds).diagram, k1, x) && kind_has(norm_seq(ds).diagram, k2, x) ==> k1 == k2,
    decreases ds.len(),
{
    let g = norm_seq(ds).diagram;
    if ds.len() == 0 {
        assert forall|k: DeclKind, x: Seq<char>| !kind_has(empty_diagram(), k, x) && !order_has(
            empty_diagram().order,
            k,
            x,
        ) by {}
    } else {
        lemma_normalize_kinds_match(ds.drop_last());
        lemma_norm_decl_kinds(norm_seq(ds.drop_last()).diagram, ds.last());
    }
    lemma_normalize_ids_unique(ds);
    assert forall|k1: DeclKind, k2: DeclKind, x: Seq<char>|
        kind_has(g, k1, x) && kind_has(g, k2, x) implies k1 == k2 by {
        assert(order_has(g.order, k1, x));
        assert(order_has(g.order, k2, x));
        let i = choose|i: int| 0 <= i < g.order.len() && (#[trigger] g.order[i]) == (k1, x);
        let j = choose|j: int| 0 <= j < g.order.len() && (#[trigger] g.order[j]) == (k2, x);
        if i != j {
            if i < j {
                assert(g.order[i].1 != g.order[j].1);
            } else {
                assert(g.order[j].1 != g.order[i].1);
            }
        }
    }
}

/// The inline and the block form of a declaration mean the same: two
/// declarations with the same kind, id, span and properties normalize to
/// the same objects with the same diagnostics, whichever form each is in.
pub proof fn lemma_inline_block_same(g: DiagramV, d1: DeclV, d2: DeclV)
    requires
        d1.kind == d2.kind,
        d1.id == d2.id,
        d1.span == d2.span,
        form_props(d1.form) == form_props(d2.form),
    ensures
        norm_decl(g, d1) == norm_decl(g, d2),
{
    assert(duplicate_diag(d1) == duplicate_diag(d2));
    match d1.kind {
        DeclKind::Equipment => assert(norm_equipment(d1) == norm_equipment(d2)),
        DeclKind::Valve => assert(norm_valve(d1) == norm_valve(d2)),
        DeclKind::Line => assert(norm_line(d1) == norm_line(d2)),
        DeclKind::Instrument => assert(norm_instrument(d1) == norm_instrument(d2)),
        DeclKind::Signal => assert(norm_signal(d1) == norm_signal(d2)),
        DeclKind::Junction => assert(norm_junction(d1) == norm_junction(d2)),
        DeclKind::Note => assert(norm_note(d1) == norm_note(d2)),
        DeclKind::Group => assert(norm_group(d1) == norm_group(d2)),
        DeclKind::Area => assert(norm_area(d1) == norm_area(d2)),
    }
}

/// Whether `f` maps each position of the order, in increasing order, to the
/// declaration it was recorded from.
pub open spec fn order_from(o: Seq<(DeclKind, Seq<char>)>, ds: Seq<DeclV>, f: spec_fn(int) -> int) -> bool {
    &&& forall|i: int| 0 <= i < o.len() ==> 0 <= #[trigger] f(i) < ds.len()
    &&& forall|i: int| 0 <= i < o.len() ==> #[trigger] o[i] == (ds[f(i)].kind, ds[f(i)].id)
    &&& forall|i: int, j: int| 0 <= i < j < o.len() ==> #[trigger] f(i) < #[trigger] f(j)
}

/// The declaration order lists the stored objects as a subsequence of the
/// declarations, in source order.
pub proof fn lemma_normalize_keeps_declaration_order(ds: Seq<DeclV>)
    ensures
        exists|f: spec_fn(int) -> int| order_from(norm_seq(ds).diagram.order, ds, f),
    decreases ds.len(),
{
    if ds.len() == 0 {
        let f = |i: int| 0int;
        assert(order_from(norm_seq(ds).diagram.order, ds, f));
    } else {
        let prev = ds.drop_last();
        lemma_normalize_keeps_declaration_order(prev);
        let f = choose|f: spec_fn(int) -> int| order_from(norm_seq(prev).diagram.order, prev, f);
        let o0 = norm_seq(prev).diagram.order;
        let o = norm_seq(ds).diagram.order;
        let d = ds.last();
        if o == o0 {
            assert(order_from(o, ds, f)) by {
                assert forall|i: int| 0 <= i < o.len() implies #[trigger] o[i] == (ds[f(i)].kind, ds[f(i)].id) by {
                    assert(ds[f(i)] == prev[f(i)]);
                }
            }
        } else {
            assert(o == o0.push((d.kind, d.id)));
            let n = o0.len();
            let f2 = |i: int| if i < n { f(i) } else { ds.len() - 1 };
            assert(order_from(o, ds, f2)) by {
                assert forall|i: int| 0 <= i < o.len() implies #[trigger] o[i] == (ds[f2(i)].kind, ds[f2(i)].id) by {
                    if i < n {
                        assert(ds[f(i)] == prev[f(i)]);
                    }
                }
            }
        }
    }
}

/// A property list without key `key` has no first property under it.
proof fn lemma_no_prop(ps: Seq<PropV>, key: Seq<char>)
    requires
        forall|i: int| 0 <= i < ps.len() ==> (#[trigger] ps[i]).key != key,
    ensures
        first_prop(ps, key) is None,
    decreases ps.len(),
{
    if ps.len() > 0 {
        assert forall|i: int| 0 <= i < ps.drop_first().len() implies (#[trigger] ps.drop_first()[i]).key != key by {
            assert(ps.drop_first()[i] == ps[i + 1]);
        }
        lemma_no_prop(ps.drop_first(), key);
    }
}

/// Whether some diagnostic is an error.
pub open spec fn reports_error(ds: Seq<DiagV>) -> bool {
    exists|i: int| 0 <= i < ds.len() && (#[trigger] ds[i]).severity == Severity::Error
}

proof fn lemma_push_error(w: Seq<DiagV>, d: DiagV)
    requires
        d.severity == Severity::Error,
    ensures
        reports_error(w.push(d)),
{
    assert(w.push(d)[w.len() as int] == d);
}

/// A declaration that lacks a property its kind requires is reported as an
/// error and yields no object: equipment, valves, instruments and signals
/// need `type`, lines need `class` and `from`, signals also `from` and `to`.
pub proof fn lemma_required_properties(d: DeclV)
    ensures
        (forall|i: int| 0 <= i < form_props(d.form).len() ==> (#[trigger] form_props(d.form)[i]).key != "type"@)
            ==> norm_equipment(d).obj is None && reports_error(norm_equipment(d).diags)
            && norm_valve(d).obj is None && reports_error(norm_valve(d).diags)
            && norm_instrument(d).obj is None && reports_error(norm_instrument(d).diags)
            && norm_signal(d).obj is None && reports_error(norm_signal(d).diags),
        (forall|i: int| 0 <= i < form_props(d.form).len() ==> (#[trigger] form_props(d.form)[i]).key != "class"@)
            ==> norm_line(d).obj is None && reports_error(norm_line(d).diags),
        (forall|i: int| 0 <= i < form_props(d.form).len() ==> (#[trigger] form_props(d.form)[i]).key != "from"@)
            ==> norm_line(d).obj is None && reports_error(norm_line(d).diags)
            && norm_signal(d).obj is None && reports_error(norm_signal(d).diags),
        (forall|i: int| 0 <= i < form_props(d.form).len() ==> (#[trigger] form_props(d.form)[i]).key != "to"@)
            ==> norm_signal(d).obj is None && reports_error(norm_signal(d).diags),
{
    let ps = form_props(d.form);
    let w = unknown_prop_diags(d.kind, ps);
    if forall|i: int| 0 <= i < ps.len() ==> (#[trigger] ps[i]).key != "type"@ {
        lemma_no_prop(ps, "type"@);
        lemma_push_error(w, missing(d, DeclKind::Equipment, "type"@));
        lemma_push_error(w, missing(d, DeclKind::Valve, "type"@));
        lemma_push_error(w, missing(d, DeclKind::Instrument, "type"@));
        lemma_push_error(w, missing(d, DeclKind::Signal, "type"@));
    }
    if forall|i: int| 0 <= i < ps.len() ==> (#[trigger] ps[i]).key != "class"@ {
        lemma_no_prop(ps, "class"@);
        lemma_push_error(w, missing(d, DeclKind::Line, "class"@));
    }
    if forall|i: int| 0 <= i < ps.len() ==> (#[trigger] ps[i]).key != "from"@ {
        lemma_no_prop(ps, "from"@);
        lemma_push_error(w, missing(d, DeclKind::Line, "class"@));
        lemma_push_error(w, missing(d, DeclKind::Line, "from"@));
        lemma_push_error(w, missing(d, DeclKind::Signal, "type"@));
        lemma_push_error(w, missing(d, DeclKind::Signal, "from"@));
    }
    if forall|i: int| 0 <= i < ps.len() ==> (#[trigger] ps[i]).key != "to"@ {
        lemma_no_prop(ps, "to"@);
        lemma_push_error(w, missing(d, DeclKind::Signal, "type"@));
        lemma_push_error(w, missing(d, DeclKind::Signal, "from"@));
        lemma_push_error(w, missing(d, DeclKind::Signal, "to"@));
    }
}


// ---- Laws of carrying properties over ----

/// The first property with key `key` holds the string `v`.
pub open spec fn says(ps: Seq<PropV>, key: Seq<char>, v: Seq<char>) -> bool {
    exists|i: int|
        0 <= i < ps.len() && (#[trigger] ps[i]).key == key && ps[i].value == PropValV::Value(ValueV::Str(v))
            && forall|j: int| 0 <= j < i ==> (#[trigger] ps[j]).key != key
}

/// No property has key `key`.
pub open spec fn lacks(ps: Seq<PropV>, key: Seq<char>) -> bool {
    forall|i: int| 0 <= i < ps.len() ==> (#[trigger] ps[i]).key != key
}

proof fn lemma_first_prop_at(ps: Seq<PropV>, key: Seq<char>, i: int)
    requires
        0 <= i < ps.len(),
        ps[i].key == key,
        forall|j: int| 0 <= j < i ==> (#[trigger] ps[j]).key != key,
    ensures
        first_prop(ps, key) == Some(ps[i]),
    decreases i,
{
    if i > 0 {
        assert(ps[0].key != key);
        assert forall|j: int| 0 <= j < i - 1 implies (#[trigger] ps.drop_first()[j]).key != key by {
            assert(ps.drop_first()[j] == ps[j + 1]);
        }
        lemma_first_prop_at(ps.drop_first(), key, i - 1);
    }
}

proof fn lemma_first_prop_absent(ps: Seq<PropV>, key: Seq<char>)
    requires
        lacks(ps, key),
    ensures
        first_prop(ps, key) is None,
    decreases ps.len(),
{
    if ps.len() > 0 {
        assert(ps[0].key != key);
        assert forall|j: int| 0 <= j < ps.drop_first().len() implies (#[trigger] ps.drop_first()[j]).key != key by {
            assert(ps.drop_first()[j] == ps[j + 1]);
        }
        lemma_first_prop_absent(ps.drop_first(), key);
    }
}

/// What the first property of a key says as a string is what the text of
/// that key reads; a key that no property has reads as nothing.
pub proof fn lemma_string_properties_are_read(ps: Seq<PropV>, key: Seq<char>)
    ensures
        forall|v: Seq<char>| #[trigger] says(ps, key, v) ==> str_prop(ps, key) == Some(v),
        lacks(ps, key) ==> str_prop(ps, key) is None,
{
    assert forall|v: Seq<char>| #[trigger] says(ps, key, v) implies str_prop(ps, key) == Some(v) by {
        let i = choose|i: int|
            0 <= i < ps.len() && (#[trigger] ps[i]).key == key && ps[i].value == PropValV::Value(ValueV::Str(v))
                && forall|j: int| 0 <= j < i ==> (#[trigger] ps[j]).key != key;
        lemma_first_prop_at(ps, key, i);
    }
    if lacks(ps, key) {
        lemma_first_prop_absent(ps, key);
    }
}

/// A valve declaration whose `type` is a string becomes a valve of that
/// type under the declaration's id, and each of its label, actuator, fail
/// action, state and setpoint is what the declaration says, or nothing
/// where it says nothing. A piece of equipment likewise keeps its type and
/// label.
pub proof fn lemma_valve_properties_carry_over(d: DeclV, t: Seq<char>)
    ensures
        says(form_props(d.form), "type"@, t) ==> {
            let ps = form_props(d.form);
            let v = norm_valve(d).obj;
            &&& v is Some
            &&& v->Some_0.id == d.id
            &&& v->Some_0.valve_type == t
            &&& forall|x: Seq<char>| #[trigger] says(ps, "label"@, x) ==> v->Some_0.label == Some(x)
            &&& forall|x: Seq<char>| #[trigger] says(ps, "actuator"@, x) ==> v->Some_0.actuator == Some(x)
            &&& forall|x: Seq<char>| #[trigger] says(ps, "fail"@, x) ==> v->Some_0.fail == Some(x)
            &&& forall|x: Seq<char>| #[trigger] says(ps, "state"@, x) ==> v->Some_0.state == Some(x)
            &&& forall|x: Seq<char>| #[trigger] says(ps, "setpoint"@, x) ==> v->Some_0.setpoint == Some(x)
            &&& lacks(ps, "label"@) ==> v->Some_0.label is None
            &&& lacks(ps, "actuator"@) ==> v->Some_0.actuator is None
            &&& lacks(ps, "fail"@) ==> v->Some_0.fail is None
            &&& lacks(ps, "state"@) ==> v->Some_0.state is None
            &&& lacks(ps, "setpoint"@) ==> v->Some_0.setpoint is None
        },
        says(form_props(d.form), "type"@, t) ==> {
            let ps = form_props(d.form);
            let e = norm_equipment(d).obj;
            &&& e is Some
            &&& e->Some_0.id == d.id
            &&& e->Some_0.equip_type == t
            &&& forall|x: Seq<char>| #[trigger] says(ps, "label"@, x) ==> e->Some_0.label == Some(x)
            &&& lacks(ps, "label"@) ==> e->Some_0.label is None
        },
{
    let ps = form_props(d.form);
    lemma_string_properties_are_read(ps, "type"@);
    lemma_string_properties_are_read(ps, "label"@);
    lemma_string_properties_are_read(ps, "actuator"@);
    lemma_string_properties_are_read(ps, "fail"@);
    lemma_string_properties_are_read(ps, "state"@);
    lemma_string_properties_are_read(ps, "setpoint"@);
}

/// The first declaration of an id wins: a later declaration whose id the
/// diagram already holds changes nothing in it and is reported by one error
/// that names the id.
pub proof fn lemma_duplicates_are_refused(ds: Seq<DeclV>, d: DeclV)
    ensures
        id_in(norm_seq(ds).diagram, d.id) ==> {
            let before = norm_seq(ds);
            let after = norm_seq(ds.push(d));
            &&& after.diagram == before.diagram
            &&& after.diags.len() == before.diags.len() + 1
            &&& after.diags.subrange(0, before.diags.len() as int) == before.diags
            &&& after.diags.last().severity == Severity::Error
            &&& after.diags.last().message == "duplicate declaration ID `"@ + d.id + "`"@
            &&& after.diags.last().span == Some(d.span)
        },
{
    let e = ds.push(d);
    assert(e.drop_last() =~= ds);
    assert(e.last() == d);
    if id_in(norm_seq(ds).diagram, d.id) {
        let before = norm_seq(ds);
        let after = norm_seq(e);
        assert(after.diags =~= before.diags + seq![duplicate_diag(d)]);
        assert(after.diags.subrange(0, before.diags.len() as int) =~= before.diags);
    }
}

/// The string a property holds, if it holds one.
pub open spec fn str_value(q: PropV) -> Option<Seq<char>> {
    match q.value {
        PropValV::Value(ValueV::Str(w)) => Some(w),
        _ => None,
    }
}

/// A `ports` block declares one port per entry, in order, named by the
/// entry's key and on the side that its string names; an entry whose
/// non-empty string names no side is warned about.
pub proof fn lemma_port_block_entries(sub: Seq<PropV>)
    ensures
        block_ports(sub).ports.len() == sub.len(),
        forall|i: int| 0 <= i < sub.len() ==> (#[trigger] block_ports(sub).ports[i]).name == sub[i].key,
        forall|i: int|
            0 <= i < sub.len() && (#[trigger] str_value(sub[i])) is Some ==> block_ports(sub).ports[i].side
                == side_of_word(str_value(sub[i])->Some_0) && (side_of_word(str_value(sub[i])->Some_0) is None
                && str_value(sub[i])->Some_0.len() > 0 ==> block_ports(sub).diags.contains(
                dg(Severity::Warning, msg_unknown_side(str_value(sub[i])->Some_0, sub[i].key), Some(sub[i].span)),
            )),
    decreases sub.len(),
{
    if sub.len() > 0 {
        let t = sub.drop_last();
        lemma_port_block_entries(t);
        let r = block_ports(t);
        let q = sub.last();
        let out = block_ports(sub);
        assert forall|i: int| 0 <= i < sub.len() implies (#[trigger] out.ports[i]).name == sub[i].key by {
            if i < t.len() {
                assert(out.ports[i] == r.ports[i]);
                assert(t[i] == sub[i]);
            }
        }
        assert forall|i: int|
            0 <= i < sub.len() && (#[trigger] str_value(sub[i])) is Some implies out.ports[i].side
                == side_of_word(str_value(sub[i])->Some_0) && (side_of_word(str_value(sub[i])->Some_0) is None
                && str_value(sub[i])->Some_0.len() > 0 ==> out.diags.contains(
                dg(Severity::Warning, msg_unknown_side(str_value(sub[i])->Some_0, sub[i].key), Some(sub[i].span)),
            )) by {
            let w = str_value(sub[i])->Some_0;
            let dd = dg(Severity::Warning, msg_unknown_side(w, sub[i].key), Some(sub[i].span));
            if i < t.len() {
                assert(out.ports[i] == r.ports[i]);
                assert(t[i] == sub[i]);
                assert(str_value(t[i]) == str_value(sub[i]));
                if side_of_word(w) is None && w.len() > 0 {
                    let k = choose|k: int| 0 <= k < r.diags.len() && r.diags[k] == dd;
                    assert(out.diags[k] == dd);
                }
            } else {
                assert(q == sub[i]);
                if side_of_word(w) is None && w.len() > 0 {
                    assert(side_diags(q) == seq![dd]);
                    assert(out.diags[r.diags.len() as int] == dd);
                }
            }
        }
    }
}

/// A `ports` list declares one port per name, in order, with no side of
/// its own.
pub proof fn lemma_port_list(p: PropV, items: Seq<Seq<char>>)
    requires
        p.value == PropValV::Value(ValueV::List(items)),
    ensures
        port_decls(p).ports.len() == items.len(),
        forall|i: int| 0 <= i < items.len() ==> #[trigger] port_decls(p).ports[i] == (PortV { name: items[i], side: None }),
        port_decls(p).diags.len() == 0,
{
}

} // verus!
