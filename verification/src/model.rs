//! The typed diagram model that normalization produces from declarations.

use vstd::prelude::*;
use indexmap::IndexSet;
use crate::ast::DeclKind;
use crate::text::str_eq;

verus! {

// ---- Insertion-ordered id maps ----

#[verifier::external_type_specification]
#[verifier::external_body]
#[verifier::reject_recursive_types(T)]
#[verifier::reject_recursive_types(S)]
pub struct ExIndexSet<T, S>(IndexSet<T, S>);

/// The items of an `IndexSet` of strings, in insertion order.
pub uninterp spec fn set_items(s: IndexSet<String>) -> Seq<Seq<char>>;

/// `IndexSet::new`: an empty set.
#[verifier::external_body]
fn set_new() -> (s: IndexSet<String>)
    ensures
        set_items(s) == Seq::<Seq<char>>::empty(),
{
    IndexSet::new()
}

/// `IndexSet::insert_full`: an item already present keeps its place and its
/// index comes back with `false`; a new item goes last and its index comes
/// back with `true`.
#[verifier::external_body]
fn set_insert_full(s: &mut IndexSet<String>, value: String) -> (r: (usize, bool))
    ensures
        set_items(*old(s)).contains(value@) ==> {
            &&& !r.1
            &&& r.0 < set_items(*old(s)).len()
            &&& set_items(*old(s))[r.0 as int] == value@
            &&& set_items(*final(s)) == set_items(*old(s))
        },
        !set_items(*old(s)).contains(value@) ==> {
            &&& r.1
            &&& r.0 == set_items(*old(s)).len()
            &&& set_items(*final(s)) == set_items(*old(s)).push(value@)
        },
{
    s.insert_full(value)
}

/// `IndexSet::get_index_of`: the position of an item equal to `key`, if any.
#[verifier::external_body]
fn set_get_index_of(s: &IndexSet<String>, key: &str) -> (r: Option<usize>)
    ensures
        r matches Some(i) ==> i < set_items(*s).len() && set_items(*s)[i as int] == key@,
        r is None ==> !set_items(*s).contains(key@),
{
    s.get_index_of(key)
}

/// `IndexSet::get_index`: the item at position `i`, if in range.
#[verifier::external_body]
fn set_get_index(s: &IndexSet<String>, i: usize) -> (r: Option<&String>)
    ensures
        r is Some <==> i < set_items(*s).len(),
        r matches Some(k) ==> k@ == set_items(*s)[i as int],
{
    s.get_index(i)
}

/// A map from ids to values that keeps insertion order: the ids live in an
/// `IndexSet`, the values in a vector at the same positions.
#[derive(Debug)]
pub struct IdMap<V> {
    keys: IndexSet<String>,
    vals: Vec<V>,
}

/// Entries of a map after inserting `(k, v)`: an existing key keeps its
/// place and takes the new value, a new key goes last.
pub open spec fn entries_insert<T>(e: Seq<(Seq<char>, T)>, k: Seq<char>, v: T) -> Seq<(Seq<char>, T)> {
    if exists|i: int| 0 <= i < e.len() && (#[trigger] e[i]).0 == k {
        let i = choose|i: int| 0 <= i < e.len() && (#[trigger] e[i]).0 == k;
        e.update(i, (k, v))
    } else {
        e.push((k, v))
    }
}

/// No key occurs twice.
pub open spec fn distinct_keys<T>(e: Seq<(Seq<char>, T)>) -> bool {
    forall|i: int, j: int| 0 <= i < j < e.len() ==> (#[trigger] e[i]).0 != (#[trigger] e[j]).0
}

/// The value under key `k`, if any (the first, should keys repeat).
pub open spec fn lookup<T>(e: Seq<(Seq<char>, T)>, k: Seq<char>) -> Option<T> {
    if exists|i: int| 0 <= i < e.len() && (#[trigger] e[i]).0 == k {
        Some(e[choose|i: int| 0 <= i < e.len() && (#[trigger] e[i]).0 == k].1)
    } else {
        None
    }
}

/// Whether some entry has key `k`.
pub open spec fn has_key<T>(e: Seq<(Seq<char>, T)>, k: Seq<char>) -> bool {
    exists|i: int| 0 <= i < e.len() && (#[trigger] e[i]).0 == k
}

impl<V> IdMap<V> {
    /// The keys in insertion order.
    pub closed spec fn key_seq(&self) -> Seq<Seq<char>> {
        set_items(self.keys)
    }

    /// The values in insertion order.
    pub closed spec fn val_seq(&self) -> Seq<V> {
        self.vals@
    }

    /// Entries in insertion order.
    pub open spec fn entries(&self) -> Seq<(Seq<char>, V)> {
        Seq::new(self.val_seq().len(), |i: int| (self.key_seq()[i], self.val_seq()[i]))
    }

    /// Keys and values line up, and no key repeats.
    pub closed spec fn wf(&self) -> bool {
        &&& set_items(self.keys).len() == self.vals@.len()
        &&& forall|i: int, j: int|
            0 <= i < j < set_items(self.keys).len() ==> set_items(self.keys)[i] != set_items(
                self.keys,
            )[j]
    }

    pub proof fn lemma_wf(&self)
        requires
            self.wf(),
        ensures
            self.key_seq().len() == self.val_seq().len(),
            distinct_keys(self.entries()),
            forall|i: int| 0 <= i < self.entries().len() ==> #[trigger] self.entries()[i] == (self.key_seq()[i], self.val_seq()[i]),
    {
    }

    pub fn new() -> (r: Self)
        ensures
            r.wf(),
            r.entries() == Seq::<(Seq<char>, V)>::empty(),
    {
        let r = IdMap { keys: set_new(), vals: Vec::new() };
        assert(r.entries() =~= Seq::<(Seq<char>, V)>::empty());
        r
    }

    /// Inserts `value` under `key`; an existing key keeps its position.
    pub fn insert(&mut self, key: String, value: V)
        requires
            old(self).wf(),
        ensures
            final(self).wf(),
            final(self).entries() == entries_insert(old(self).entries(), key@, value),
    {
        let ghost k = key@;
        let ghost e0 = self.entries();
        let (idx, added) = set_insert_full(&mut self.keys, key);
        if added {
            self.vals.push(value);
            proof {
                assert(!has_key(e0, k)) by {
                    if has_key(e0, k) {
                        let i = choose|i: int| 0 <= i < e0.len() && (#[trigger] e0[i]).0 == k;
                        assert(old(self).key_seq()[i] == k);
                    }
                }
                assert(self.entries() =~= e0.push((k, value)));
            }
        } else {
            self.vals.set(idx, value);
            proof {
                assert(e0[idx as int].0 == k);
                let j = choose|i: int| 0 <= i < e0.len() && (#[trigger] e0[i]).0 == k;
                assert(j == idx);
                assert(self.entries() =~= e0.update(idx as int, (k, value)));
            }
        }
    }

    /// The value stored under `key`.
    pub fn get(&self, key: &str) -> (r: Option<&V>)
        requires
            self.wf(),
        ensures
            r is Some <==> has_key(self.entries(), key@),
            r matches Some(v) ==> lookup(self.entries(), key@) == Some(*v),
    {
        match set_get_index_of(&self.keys, key) {
            Some(i) => {
                assert(self.entries()[i as int].0 == key@);
                proof {
                    let j = choose|j: int| 0 <= j < self.entries().len() && (#[trigger] self.entries()[j]).0 == key@;
                    assert(self.key_seq()[j] == self.key_seq()[i as int]);
                    assert(j == i);
                }
                Some(&self.vals[i])
            },
            None => {
                proof {
                    if has_key(self.entries(), key@) {
                        let i = choose|i: int| 0 <= i < self.entries().len() && (#[trigger] self.entries()[i]).0 == key@;
                        assert(self.key_seq()[i] == key@);
                    }
                }
                None
            },
        }
    }

    pub fn contains_key(&self, key: &str) -> (r: bool)
        requires
            self.wf(),
        ensures
            r == has_key(self.entries(), key@),
    {
        self.get(key).is_some()
    }

    pub fn len(&self) -> (r: usize)
        requires
            self.wf(),
        ensures
            r == self.entries().len(),
    {
        self.vals.len()
    }

    pub fn is_empty(&self) -> (r: bool)
        requires
            self.wf(),
        ensures
            r == (self.entries().len() == 0),
    {
        self.vals.len() == 0
    }

    /// The values in insertion order.
    pub fn values(&self) -> (r: &[V])
        ensures
            r@ == self.val_seq(),
    {
        self.vals.as_slice()
    }

    /// The key and value at position `i` of the insertion order.
    pub fn get_index(&self, i: usize) -> (r: Option<(&String, &V)>)
        requires
            self.wf(),
        ensures
            r is Some <==> i < self.entries().len(),
            r matches Some(p) ==> p.0@ == self.entries()[i as int].0 && *p.1 == self.entries()[i as int].1,
    {
        if i < self.vals.len() {
            match set_get_index(&self.keys, i) {
                Some(k) => Some((k, &self.vals[i])),
                None => None,
            }
        } else {
            None
        }
    }
}


/// Reading back what was written: after inserting `v` under `k`, looking up
/// `k` gives `v`, every other key gives what it gave before, no key repeats,
/// and the order of insertion is kept (an existing key keeps its place, a
/// new key comes last).
pub proof fn lemma_insert_then_lookup<T>(e: Seq<(Seq<char>, T)>, k: Seq<char>, v: T, k2: Seq<char>)
    requires
        distinct_keys(e),
    ensures
        distinct_keys(entries_insert(e, k, v)),
        lookup(entries_insert(e, k, v), k) == Some(v),
        k2 != k ==> lookup(entries_insert(e, k, v), k2) == lookup(e, k2),
        has_key(e, k) ==> entries_insert(e, k, v).len() == e.len() && forall|i: int|
            0 <= i < e.len() ==> (#[trigger] entries_insert(e, k, v)[i]).0 == e[i].0,
        !has_key(e, k) ==> entries_insert(e, k, v).len() == e.len() + 1 && entries_insert(e, k, v)[e.len() as int]
            == (k, v) && forall|i: int| 0 <= i < e.len() ==> #[trigger] entries_insert(e, k, v)[i] == e[i],
{
    let f = entries_insert(e, k, v);
    if has_key(e, k) {
        let j = choose|i: int| 0 <= i < e.len() && (#[trigger] e[i]).0 == k;
        assert(f == e.update(j, (k, v)));
        assert forall|a: int, b: int| 0 <= a < b < f.len() implies (#[trigger] f[a]).0 != (#[trigger] f[b]).0 by {
            assert(f[a].0 == e[a].0);
            assert(f[b].0 == e[b].0);
        }
        let m = choose|i: int| 0 <= i < f.len() && (#[trigger] f[i]).0 == k;
        assert(f[j].0 == k);
        assert(m == j);
        if k2 != k && has_key(e, k2) {
            let a = choose|i: int| 0 <= i < e.len() && (#[trigger] e[i]).0 == k2;
            assert(f[a].0 == k2);
            let b = choose|i: int| 0 <= i < f.len() && (#[trigger] f[i]).0 == k2;
            assert(e[b].0 == k2);
            assert(a == b);
        }
        if k2 != k && has_key(f, k2) {
            let b = choose|i: int| 0 <= i < f.len() && (#[trigger] f[i]).0 == k2;
            assert(e[b].0 == f[b].0);
        }
    } else {
        assert(f == e.push((k, v)));
        assert forall|a: int, b: int| 0 <= a < b < f.len() implies (#[trigger] f[a]).0 != (#[trigger] f[b]).0 by {
            if b == e.len() {
                assert(f[a] == e[a]);
            } else {
                assert(f[a] == e[a]);
                assert(f[b] == e[b]);
            }
        }
        assert(f[e.len() as int].0 == k);
        let m = choose|i: int| 0 <= i < f.len() && (#[trigger] f[i]).0 == k;
        assert(m == e.len());
        if k2 != k && has_key(e, k2) {
            let a = choose|i: int| 0 <= i < e.len() && (#[trigger] e[i]).0 == k2;
            assert(f[a] == e[a]);
            let b = choose|i: int| 0 <= i < f.len() && (#[trigger] f[i]).0 == k2;
            assert(b < e.len());
            assert(f[b] == e[b]);
            assert(a == b);
        }
        if k2 != k && has_key(f, k2) {
            let b = choose|i: int| 0 <= i < f.len() && (#[trigger] f[i]).0 == k2;
            assert(b < e.len());
            assert(e[b] == f[b]);
        }
    }
}

/// Entries with their values taken by view.
pub open spec fn entries_view<T: View>(e: Seq<(Seq<char>, T)>) -> Seq<(Seq<char>, T::V)> {
    e.map_values(|p: (Seq<char>, T)| (p.0, p.1@))
}

/// Taking views keeps keys and lookups.
pub proof fn lemma_entries_view<T: View>(e: Seq<(Seq<char>, T)>, k: Seq<char>)
    requires
        distinct_keys(e),
    ensures
        has_key(entries_view(e), k) == has_key(e, k),
        distinct_keys(entries_view(e)),
        lookup(e, k) matches Some(v) ==> lookup(entries_view(e), k) == Some(v@),
{
    let ev = entries_view(e);
    if has_key(e, k) {
        let i = choose|i: int| 0 <= i < e.len() && (#[trigger] e[i]).0 == k;
        assert(ev[i].0 == k);
        let j = choose|j: int| 0 <= j < ev.len() && (#[trigger] ev[j]).0 == k;
        assert(e[j].0 == k);
    }
    if has_key(ev, k) {
        let j = choose|j: int| 0 <= j < ev.len() && (#[trigger] ev[j]).0 == k;
        assert(e[j].0 == k);
    }
}

// ---- Model objects ----

#[derive(Debug, Clone, Copy, PartialEq, Eq, Structural)]
pub struct GridPos {
    pub x: i32,
    pub y: i32,
}

#[derive(Debug, Clone, Copy, PartialEq, Eq, Structural)]
pub enum Side {
    North,
    South,
    East,
    West,
}

/// The side named by a word.
pub open spec fn side_of_word(s: Seq<char>) -> Option<Side> {
    if s == "north"@ {
        Some(Side::North)
    } else if s == "south"@ {
        Some(Side::South)
    } else if s == "east"@ {
        Some(Side::East)
    } else if s == "west"@ {
        Some(Side::West)
    } else {
        None
    }
}

impl Side {
    pub fn from_str(s: &str) -> (r: Option<Self>)
        ensures
            r == side_of_word(s@),
    {
        if str_eq(s, "north") {
            Some(Side::North)
        } else if str_eq(s, "south") {
            Some(Side::South)
        } else if str_eq(s, "east") {
            Some(Side::East)
        } else if str_eq(s, "west") {
            Some(Side::West)
        } else {
            None
        }
    }
}

#[derive(Debug, Clone)]
pub struct Port {
    pub name: String,
    pub side: Option<Side>,
}

pub struct PortV {
    pub name: Seq<char>,
    pub side: Option<Side>,
}

impl View for Port {
    type V = PortV;

    open spec fn view(&self) -> PortV {
        PortV { name: self.name@, side: self.side }
    }
}

pub open spec fn ports_view(s: Seq<Port>) -> Seq<PortV> {
    s.map_values(|p: Port| p@)
}

#[derive(Debug, Clone)]
pub struct ObjRef {
    pub id: String,
    pub port: Option<String>,
}

pub struct RefV {
    pub id: Seq<char>,
    pub port: Option<Seq<char>>,
}

pub open spec fn ostr(o: Option<String>) -> Option<Seq<char>> {
    match o {
        Some(s) => Some(s@),
        None => None,
    }
}

impl View for ObjRef {
    type V = RefV;

    open spec fn view(&self) -> RefV {
        RefV { id: self.id@, port: ostr(self.port) }
    }
}

pub open spec fn oref(o: Option<ObjRef>) -> Option<RefV> {
    match o {
        Some(r) => Some(r@),
        None => None,
    }
}

/// `id`, or `id.port`.
pub open spec fn ref_text(r: RefV) -> Seq<char> {
    match r.port {
        None => r.id,
        Some(p) => r.id + seq!['.'] + p,
    }
}

impl ObjRef {
    pub fn new(id: String, port: Option<String>) -> (r: Self)
        ensures
            r@ == (RefV { id: id@, port: ostr(port) }),
    {
        Self { id, port }
    }

    /// The reference as written: `id` or `id.port`.
    pub fn display(&self) -> (r: String)
        ensures
            r@ == ref_text(self@),
    {
        let mut out = self.id.clone();
        match &self.port {
            None => {},
            Some(p) => {
                crate::text::push_char(&mut out, '.');
                crate::text::push_str(&mut out, p.as_str());
            },
        }
        out
    }
}

#[derive(Debug, Clone)]
pub struct Equipment {
    pub id: String,
    pub equip_type: String,
    pub label: Option<String>,
    pub pos: Option<GridPos>,
    pub ports: Vec<Port>,
    /// Symbol size override in grid units (scaled by the grid scale).
    pub size: Option<GridPos>,
    /// Mount this equipment flush against another (heat pads, jackets,
    /// agitator drives). `X.port` picks the side; plain `X` means below.
    pub attach: Option<ObjRef>,
}

pub struct EquipmentV {
    pub id: Seq<char>,
    pub equip_type: Seq<char>,
    pub label: Option<Seq<char>>,
    pub pos: Option<GridPos>,
    pub ports: Seq<PortV>,
    pub size: Option<GridPos>,
    pub attach: Option<RefV>,
}

impl View for Equipment {
    type V = EquipmentV;

    open spec fn view(&self) -> EquipmentV {
        EquipmentV {
            id: self.id@,
            equip_type: self.equip_type@,
            label: ostr(self.label),
            pos: self.pos,
            ports: ports_view(self.ports@),
            size: self.size,
            attach: oref(self.attach),
        }
    }
}

#[derive(Debug, Clone)]
pub struct Valve {
    pub id: String,
    pub valve_type: String,
    pub label: Option<String>,
    pub pos: Option<GridPos>,
    pub ports: Vec<Port>,
    pub actuator: Option<String>,
    pub fail: Option<String>,
    /// Normal operating state: `nc` (normally closed) / `no` (normally open).
    pub state: Option<String>,
    /// Set pressure / setpoint annotation, e.g. "5 barg".
    pub setpoint: Option<String>,
}

pub struct ValveV {
    pub id: Seq<char>,
    pub valve_type: Seq<char>,
    pub label: Option<Seq<char>>,
    pub pos: Option<GridPos>,
    pub ports: Seq<PortV>,
    pub actuator: Option<Seq<char>>,
    pub fail: Option<Seq<char>>,
    pub state: Option<Seq<char>>,
    pub setpoint: Option<Seq<char>>,
}

impl View for Valve {
    type V = ValveV;

    open spec fn view(&self) -> ValveV {
        ValveV {
            id: self.id@,
            valve_type: self.valve_type@,
            label: ostr(self.label),
            pos: self.pos,
            ports: ports_view(self.ports@),
            actuator: ostr(self.actuator),
            fail: ostr(self.fail),
            state: ostr(self.state),
            setpoint: ostr(self.setpoint),
        }
    }
}

#[derive(Debug, Clone)]
pub struct Line {
    pub id: String,
    pub class: String,
    pub from: ObjRef,
    /// `None` makes an open-ended stub: a short run drawn outward from
    /// `from` (drains, vents, sample points).
    pub to: Option<ObjRef>,
    pub label: Option<String>,
    /// Draw a flexible-hose squiggle on the run.
    pub flexible: bool,
    /// Draw an insulation hatch band on the run.
    pub insulated: bool,
}

pub struct LineV {
    pub id: Seq<char>,
    pub class: Seq<char>,
    pub from: RefV,
    pub to: Option<RefV>,
    pub label: Option<Seq<char>>,
    pub flexible: bool,
    pub insulated: bool,
}

impl View for Line {
    type V = LineV;

    open spec fn view(&self) -> LineV {
        LineV {
            id: self.id@,
            class: self.class@,
            from: self.from@,
            to: oref(self.to),
            label: ostr(self.label),
            flexible: self.flexible,
            insulated: self.insulated,
        }
    }
}

#[derive(Debug, Clone)]
pub struct Instrument {
    pub id: String,
    pub instr_type: String,
    pub label: Option<String>,
    pub pos: Option<GridPos>,
    pub attach: Option<ObjRef>,
    pub location: Option<String>,
}

pub struct InstrumentV {
    pub id: Seq<char>,
    pub instr_type: Seq<char>,
    pub label: Option<Seq<char>>,
    pub pos: Option<GridPos>,
    pub attach: Option<RefV>,
    pub location: Option<Seq<char>>,
}

impl View for Instrument {
    type V = InstrumentV;

    open spec fn view(&self) -> InstrumentV {
        InstrumentV {
            id: self.id@,
            instr_type: self.instr_type@,
            label: ostr(self.label),
            pos: self.pos,
            attach: oref(self.attach),
            location: ostr(self.location),
        }
    }
}

#[derive(Debug, Clone)]
pub struct Signal {
    pub id: String,
    pub sig_type: String,
    pub from: ObjRef,
    pub to: ObjRef,
    pub label: Option<String>,
}

pub struct SignalV {
    pub id: Seq<char>,
    pub sig_type: Seq<char>,
    pub from: RefV,
    pub to: RefV,
    pub label: Option<Seq<char>>,
}

impl View for Signal {
    type V = SignalV;

    open spec fn view(&self) -> SignalV {
        SignalV {
            id: self.id@,
            sig_type: self.sig_type@,
            from: self.from@,
            to: self.to@,
            label: ostr(self.label),
        }
    }
}

#[derive(Debug, Clone)]
pub struct Junction {
    pub id: String,
    pub pos: Option<GridPos>,
}

pub struct JunctionV {
    pub id: Seq<char>,
    pub pos: Option<GridPos>,
}

impl View for Junction {
    type V = JunctionV;

    open spec fn view(&self) -> JunctionV {
        JunctionV { id: self.id@, pos: self.pos }
    }
}

#[derive(Debug, Clone)]
pub struct Note {
    pub id: String,
    pub text: Option<String>,
    pub pos: Option<GridPos>,
}

pub struct NoteV {
    pub id: Seq<char>,
    pub text: Option<Seq<char>>,
    pub pos: Option<GridPos>,
}

impl View for Note {
    type V = NoteV;

    open spec fn view(&self) -> NoteV {
        NoteV { id: self.id@, text: ostr(self.text), pos: self.pos }
    }
}

#[derive(Debug, Clone)]
pub struct Group {
    pub id: String,
    pub members: Vec<String>,
    pub label: Option<String>,
    /// A framed group is drawn as one module and positioned as a whole.
    pub frame: bool,
}

pub struct GroupV {
    pub id: Seq<char>,
    pub members: Seq<Seq<char>>,
    pub label: Option<Seq<char>>,
    pub frame: bool,
}

impl View for Group {
    type V = GroupV;

    open spec fn view(&self) -> GroupV {
        GroupV {
            id: self.id@,
            members: crate::ast::strings_view(self.members@),
            label: ostr(self.label),
            frame: self.frame,
        }
    }
}

#[derive(Debug, Clone)]
pub struct Area {
    pub id: String,
    pub label: Option<String>,
    pub bounds: Option<(GridPos, GridPos)>,
}

pub struct AreaV {
    pub id: Seq<char>,
    pub label: Option<Seq<char>>,
    pub bounds: Option<(GridPos, GridPos)>,
}

impl View for Area {
    type V = AreaV;

    open spec fn view(&self) -> AreaV {
        AreaV { id: self.id@, label: ostr(self.label), bounds: self.bounds }
    }
}

// ---- The diagram ----

#[derive(Debug)]
pub struct Diagram {
    pub equipment: IdMap<Equipment>,
    pub valves: IdMap<Valve>,
    pub lines: IdMap<Line>,
    pub instruments: IdMap<Instrument>,
    pub signals: IdMap<Signal>,
    pub junctions: IdMap<Junction>,
    pub notes: IdMap<Note>,
    pub groups: IdMap<Group>,
    pub areas: IdMap<Area>,
    /// Every object in declaration order, with its kind.
    pub order: Vec<(DeclKind, String)>,
}

pub struct DiagramV {
    pub equipment: Seq<(Seq<char>, EquipmentV)>,
    pub valves: Seq<(Seq<char>, ValveV)>,
    pub lines: Seq<(Seq<char>, LineV)>,
    pub instruments: Seq<(Seq<char>, InstrumentV)>,
    pub signals: Seq<(Seq<char>, SignalV)>,
    pub junctions: Seq<(Seq<char>, JunctionV)>,
    pub notes: Seq<(Seq<char>, NoteV)>,
    pub groups: Seq<(Seq<char>, GroupV)>,
    pub areas: Seq<(Seq<char>, AreaV)>,
    pub order: Seq<(DeclKind, Seq<char>)>,
}

pub open spec fn order_view(s: Seq<(DeclKind, String)>) -> Seq<(DeclKind, Seq<char>)> {
    s.map_values(|p: (DeclKind, String)| (p.0, p.1@))
}

impl View for Diagram {
    type V = DiagramV;

    open spec fn view(&self) -> DiagramV {
        DiagramV {
            equipment: entries_view(self.equipment.entries()),
            valves: entries_view(self.valves.entries()),
            lines: entries_view(self.lines.entries()),
            instruments: entries_view(self.instruments.entries()),
            signals: entries_view(self.signals.entries()),
            junctions: entries_view(self.junctions.entries()),
            notes: entries_view(self.notes.entries()),
            groups: entries_view(self.groups.entries()),
            areas: entries_view(self.areas.entries()),
            order: order_view(self.order@),
        }
    }
}

/// The empty diagram.
pub open spec fn empty_diagram() -> DiagramV {
    DiagramV {
        equipment: Seq::empty(),
        valves: Seq::empty(),
        lines: Seq::empty(),
        instruments: Seq::empty(),
        signals: Seq::empty(),
        junctions: Seq::empty(),
        notes: Seq::empty(),
        groups: Seq::empty(),
        areas: Seq::empty(),
        order: Seq::empty(),
    }
}

/// Whether some object of the diagram has id `id`.
pub open spec fn id_in(d: DiagramV, id: Seq<char>) -> bool {
    has_key(d.equipment, id) || has_key(d.valves, id) || has_key(d.lines, id) || has_key(
        d.instruments,
        id,
    ) || has_key(d.signals, id) || has_key(d.junctions, id) || has_key(d.notes, id) || has_key(
        d.groups,
        id,
    ) || has_key(d.areas, id)
}

/// The declared ports of the equipment or valve `id`.
pub open spec fn ports_of(d: DiagramV, id: Seq<char>) -> Option<Seq<PortV>> {
    match lookup(d.equipment, id) {
        Some(e) => Some(e.ports),
        None => match lookup(d.valves, id) {
            Some(v) => Some(v.ports),
            None => None,
        },
    }
}

impl Diagram {
    /// All maps are well formed.
    pub open spec fn wf(&self) -> bool {
        &&& self.equipment.wf()
        &&& self.valves.wf()
        &&& self.lines.wf()
        &&& self.instruments.wf()
        &&& self.signals.wf()
        &&& self.junctions.wf()
        &&& self.notes.wf()
        &&& self.groups.wf()
        &&& self.areas.wf()
    }

    pub fn new() -> (r: Self)
        ensures
            r.wf(),
            r@ == empty_diagram(),
    {
        let r = Self {
            equipment: IdMap::new(),
            valves: IdMap::new(),
            lines: IdMap::new(),
            instruments: IdMap::new(),
            signals: IdMap::new(),
            junctions: IdMap::new(),
            notes: IdMap::new(),
            groups: IdMap::new(),
            areas: IdMap::new(),
            order: Vec::new(),
        };
        assert(r@.order =~= Seq::<(DeclKind, Seq<char>)>::empty());
        assert(r@.equipment =~= Seq::<(Seq<char>, EquipmentV)>::empty());
        assert(r@.valves =~= Seq::<(Seq<char>, ValveV)>::empty());
        assert(r@.lines =~= Seq::<(Seq<char>, LineV)>::empty());
        assert(r@.instruments =~= Seq::<(Seq<char>, InstrumentV)>::empty());
        assert(r@.signals =~= Seq::<(Seq<char>, SignalV)>::empty());
        assert(r@.junctions =~= Seq::<(Seq<char>, JunctionV)>::empty());
        assert(r@.notes =~= Seq::<(Seq<char>, NoteV)>::empty());
        assert(r@.groups =~= Seq::<(Seq<char>, GroupV)>::empty());
        assert(r@.areas =~= Seq::<(Seq<char>, AreaV)>::empty());
        r
    }

    /// Check if an ID exists in any map.
    pub fn id_exists(&self, id: &str) -> (r: bool)
        requires
            self.wf(),
        ensures
            r == id_in(self@, id@),
    {
        proof {
            self.equipment.lemma_wf();
            self.valves.lemma_wf();
            self.lines.lemma_wf();
            self.instruments.lemma_wf();
            self.signals.lemma_wf();
            self.junctions.lemma_wf();
            self.notes.lemma_wf();
            self.groups.lemma_wf();
            self.areas.lemma_wf();
            lemma_entries_view(self.equipment.entries(), id@);
            lemma_entries_view(self.valves.entries(), id@);
            lemma_entries_view(self.lines.entries(), id@);
            lemma_entries_view(self.instruments.entries(), id@);
            lemma_entries_view(self.signals.entries(), id@);
            lemma_entries_view(self.junctions.entries(), id@);
            lemma_entries_view(self.notes.entries(), id@);
            lemma_entries_view(self.groups.entries(), id@);
            lemma_entries_view(self.areas.entries(), id@);
        }
        self.equipment.contains_key(id) || self.valves.contains_key(id) || self.lines.contains_key(id)
            || self.instruments.contains_key(id) || self.signals.contains_key(id)
            || self.junctions.contains_key(id) || self.notes.contains_key(id)
            || self.groups.contains_key(id) || self.areas.contains_key(id)
    }

    /// Get ports for an object ID (if it declares them).
    pub fn get_ports(&self, id: &str) -> (r: Option<&[Port]>)
        requires
            self.wf(),
        ensures
            match r {
                Some(p) => ports_of(self@, id@) == Some(ports_view(p@)),
                None => ports_of(self@, id@) is None,
            },
    {
        proof {
            self.equipment.lemma_wf();
            self.valves.lemma_wf();
            lemma_entries_view(self.equipment.entries(), id@);
            lemma_entries_view(self.valves.entries(), id@);
        }
        if let Some(e) = self.equipment.get(id) {
            return Some(e.ports.as_slice());
        }
        if let Some(v) = self.valves.get(id) {
            return Some(v.ports.as_slice());
        }
        None
    }
}

impl Default for Diagram {
    fn default() -> (r: Self)
        ensures
            r.wf(),
            r@ == empty_diagram(),
    {
        Self::new()
    }
}

} // verus!
