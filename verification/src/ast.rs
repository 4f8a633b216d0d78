//! Syntax tree of a parsed document: declarations and their properties.

use vstd::prelude::*;
use crate::span::Span;
use crate::text::{push_char, push_str, str_eq, fmt_i32, dec_int};

verus! {

#[derive(Debug)]
pub struct Document {
    pub decls: Vec<Decl>,
}

#[derive(Debug)]
pub struct Decl {
    pub kind: DeclKind,
    pub id: String,
    pub form: DeclForm,
    pub span: Span,
}

#[derive(Debug, Clone, Copy, PartialEq, Eq, Hash, Structural)]
pub enum DeclKind {
    Equipment,
    Valve,
    Line,
    Instrument,
    Signal,
    Group,
    Area,
    Note,
    Junction,
}

/// The declaration kind named by a keyword.
pub open spec fn kind_of_keyword(s: Seq<char>) -> Option<DeclKind> {
    if s == "equipment"@ {
        Some(DeclKind::Equipment)
    } else if s == "valve"@ {
        Some(DeclKind::Valve)
    } else if s == "line"@ {
        Some(DeclKind::Line)
    } else if s == "instrument"@ {
        Some(DeclKind::Instrument)
    } else if s == "signal"@ {
        Some(DeclKind::Signal)
    } else if s == "group"@ {
        Some(DeclKind::Group)
    } else if s == "area"@ {
        Some(DeclKind::Area)
    } else if s == "note"@ {
        Some(DeclKind::Note)
    } else if s == "junction"@ {
        Some(DeclKind::Junction)
    } else {
        None
    }
}

/// The keyword of a declaration kind.
pub open spec fn kind_name(k: DeclKind) -> Seq<char> {
    match k {
        DeclKind::Equipment => "equipment"@,
        DeclKind::Valve => "valve"@,
        DeclKind::Line => "line"@,
        DeclKind::Instrument => "instrument"@,
        DeclKind::Signal => "signal"@,
        DeclKind::Group => "group"@,
        DeclKind::Area => "area"@,
        DeclKind::Note => "note"@,
        DeclKind::Junction => "junction"@,
    }
}

impl DeclKind {
    pub fn from_str(s: &str) -> (r: Option<Self>)
        ensures
            r == kind_of_keyword(s@),
    {
        if str_eq(s, "equipment") {
            Some(DeclKind::Equipment)
        } else if str_eq(s, "valve") {
            Some(DeclKind::Valve)
        } else if str_eq(s, "line") {
            Some(DeclKind::Line)
        } else if str_eq(s, "instrument") {
            Some(DeclKind::Instrument)
        } else if str_eq(s, "signal") {
            Some(DeclKind::Signal)
        } else if str_eq(s, "group") {
            Some(DeclKind::Group)
        } else if str_eq(s, "area") {
            Some(DeclKind::Area)
        } else if str_eq(s, "note") {
            Some(DeclKind::Note)
        } else if str_eq(s, "junction") {
            Some(DeclKind::Junction)
        } else {
            None
        }
    }

    /// The keyword of this kind, as written in source.
    pub fn name(&self) -> (r: &'static str)
        ensures
            r@ == kind_name(*self),
    {
        match self {
            DeclKind::Equipment => "equipment",
            DeclKind::Valve => "valve",
            DeclKind::Line => "line",
            DeclKind::Instrument => "instrument",
            DeclKind::Signal => "signal",
            DeclKind::Group => "group",
            DeclKind::Area => "area",
            DeclKind::Note => "note",
            DeclKind::Junction => "junction",
        }
    }
}

/// Every kind's keyword names that kind again.
pub proof fn lemma_kind_keyword_roundtrip(k: DeclKind)
    ensures
        kind_of_keyword(kind_name(k)) == Some(k),
{
    reveal_strlit("equipment");
    reveal_strlit("valve");
    reveal_strlit("line");
    reveal_strlit("instrument");
    reveal_strlit("signal");
    reveal_strlit("group");
    reveal_strlit("area");
    reveal_strlit("note");
    reveal_strlit("junction");
    let names = seq![
        "equipment"@, "valve"@, "line"@, "instrument"@, "signal"@, "group"@, "area"@,
        "note"@, "junction"@,
    ];
    assert forall|i: int, j: int| 0 <= i < 9 && 0 <= j < 9 && i != j implies names[i] != names[j] by {
        if names[i].len() == names[j].len() {
            assert(names[i][0] != names[j][0]);
        }
    }
    assert(names[0] == "equipment"@);
    assert(names[1] == "valve"@);
    assert(names[2] == "line"@);
    assert(names[3] == "instrument"@);
    assert(names[4] == "signal"@);
    assert(names[5] == "group"@);
    assert(names[6] == "area"@);
    assert(names[7] == "note"@);
    assert(names[8] == "junction"@);
}

#[derive(Debug)]
pub enum DeclForm {
    Inline(Vec<Prop>),
    Block(Vec<Prop>),
}

#[derive(Debug)]
pub struct Prop {
    pub key: String,
    pub value: PropVal,
    pub span: Span,
}

#[derive(Debug)]
pub enum PropVal {
    Value(Value),
    Block(Vec<Prop>),
}

#[derive(Debug, Clone)]
pub enum Value {
    Str(String),
    /// An object id with an optional port.
    Ref(String, Option<String>),
    Tuple(Vec<i32>),
    List(Vec<String>),
}

// ---- Values of the syntax tree, with strings as character sequences ----

pub enum ValueV {
    Str(Seq<char>),
    Ref(Seq<char>, Option<Seq<char>>),
    Tuple(Seq<i32>),
    List(Seq<Seq<char>>),
}

pub enum PropValV {
    Value(ValueV),
    Block(Seq<PropV>),
}

pub struct PropV {
    pub key: Seq<char>,
    pub value: PropValV,
    pub span: Span,
}

pub enum DeclFormV {
    Inline(Seq<PropV>),
    Block(Seq<PropV>),
}

pub struct DeclV {
    pub kind: DeclKind,
    pub id: Seq<char>,
    pub form: DeclFormV,
    pub span: Span,
}

pub open spec fn strings_view(v: Seq<String>) -> Seq<Seq<char>> {
    v.map_values(|s: String| s@)
}

impl View for Value {
    type V = ValueV;

    open spec fn view(&self) -> ValueV {
        match self {
            Value::Str(s) => ValueV::Str(s@),
            Value::Ref(id, port) => ValueV::Ref(id@, opt_view(*port)),
            Value::Tuple(n) => ValueV::Tuple(n@),
            Value::List(items) => ValueV::List(strings_view(items@)),
        }
    }
}

pub open spec fn opt_view(o: Option<String>) -> Option<Seq<char>> {
    match o {
        Some(s) => Some(s@),
        None => None,
    }
}

pub open spec fn prop_view(p: Prop) -> PropV
    decreases p,
{
    PropV {
        key: p.key@,
        value: match p.value {
            PropVal::Value(v) => PropValV::Value(v@),
            PropVal::Block(sub) => PropValV::Block(props_view(sub@)),
        },
        span: p.span,
    }
}

pub open spec fn props_view(s: Seq<Prop>) -> Seq<PropV>
    decreases s,
{
    if s.len() == 0 {
        Seq::empty()
    } else {
        seq![prop_view(s[0])] + props_view(s.subrange(1, s.len() as int))
    }
}

impl View for Prop {
    type V = PropV;

    open spec fn view(&self) -> PropV {
        prop_view(*self)
    }
}

impl View for DeclForm {
    type V = DeclFormV;

    open spec fn view(&self) -> DeclFormV {
        match self {
            DeclForm::Inline(p) => DeclFormV::Inline(props_view(p@)),
            DeclForm::Block(p) => DeclFormV::Block(props_view(p@)),
        }
    }
}

impl View for Decl {
    type V = DeclV;

    open spec fn view(&self) -> DeclV {
        DeclV { kind: self.kind, id: self.id@, form: self.form@, span: self.span }
    }
}

pub open spec fn decls_view(s: Seq<Decl>) -> Seq<DeclV> {
    s.map_values(|d: Decl| d@)
}

impl View for Document {
    type V = Seq<DeclV>;

    open spec fn view(&self) -> Seq<DeclV> {
        decls_view(self.decls@)
    }
}

/// The properties of a declaration, whichever its form.
pub open spec fn form_props(f: DeclFormV) -> Seq<PropV> {
    match f {
        DeclFormV::Inline(p) => p,
        DeclFormV::Block(p) => p,
    }
}

/// `props_view` gives one value per property, each the property's own value.
pub proof fn lemma_props_view(s: Seq<Prop>)
    ensures
        props_view(s).len() == s.len(),
        forall|i: int| 0 <= i < s.len() ==> #[trigger] props_view(s)[i] == prop_view(s[i]),
    decreases s.len(),
{
    if s.len() > 0 {
        lemma_props_view(s.subrange(1, s.len() as int));
        assert forall|i: int| 0 <= i < s.len() implies #[trigger] props_view(s)[i] == prop_view(
            s[i],
        ) by {
            if i > 0 {
                assert(s.subrange(1, s.len() as int)[i - 1] == s[i]);
            }
        }
    }
}

/// Appending one property appends its value.
pub proof fn lemma_props_view_push(s: Seq<Prop>, p: Prop)
    ensures
        props_view(s.push(p)) == props_view(s).push(prop_view(p)),
{
    lemma_props_view(s);
    lemma_props_view(s.push(p));
    assert(props_view(s.push(p)) =~= props_view(s).push(prop_view(p)));
}

impl DeclForm {
    pub fn props(&self) -> (r: &[Prop])
        ensures
            props_view(r@) == form_props(self@),
    {
        match self {
            DeclForm::Inline(props) => props.as_slice(),
            DeclForm::Block(props) => props.as_slice(),
        }
    }
}

// ---- Display text of values ----

/// Items joined by a separator.
pub open spec fn join(items: Seq<Seq<char>>, sep: Seq<char>) -> Seq<char>
    decreases items.len(),
{
    if items.len() == 0 {
        Seq::empty()
    } else if items.len() == 1 {
        items[0]
    } else {
        join(items.drop_last(), sep) + sep + items.last()
    }
}

/// Integers in decimal, joined by a separator.
pub open spec fn join_ints(n: Seq<i32>, sep: Seq<char>) -> Seq<char>
    decreases n.len(),
{
    if n.len() == 0 {
        Seq::empty()
    } else if n.len() == 1 {
        dec_int(n[0] as int)
    } else {
        join_ints(n.drop_last(), sep) + sep + dec_int(n.last() as int)
    }
}

/// How a value prints: strings as-is, references as `id` or `id.port`,
/// tuples as `(a,b)`, lists as `a, b`.
pub open spec fn value_text(v: ValueV) -> Seq<char> {
    match v {
        ValueV::Str(s) => s,
        ValueV::Ref(id, None) => id,
        ValueV::Ref(id, Some(p)) => id + seq!['.'] + p,
        ValueV::Tuple(n) => seq!['('] + join_ints(n, seq![',']) + seq![')'],
        ValueV::List(items) => join(items, seq![',', ' ']),
    }
}

/// Appends the items of `items` separated by `sep`.
pub fn push_joined(out: &mut String, items: &Vec<String>, sep: &str)
    ensures
        final(out)@ == old(out)@ + join(strings_view(items@), sep@),
{
    let ghost start = out@;
    let mut i: usize = 0;
    while i < items.len()
        invariant
            i <= items@.len(),
            out@ == start + join(strings_view(items@.subrange(0, i as int)), sep@),
        decreases items@.len() - i,
    {
        let ghost before = out@;
        if i > 0 {
            push_str(out, sep);
        }
        push_str(out, items[i].as_str());
        proof {
            let pre = strings_view(items@.subrange(0, i as int));
            let post = strings_view(items@.subrange(0, i + 1));
            assert(post.drop_last() =~= pre);
            assert(post.last() == items@[i as int]@);
            if i == 0 {
                assert(pre =~= Seq::<Seq<char>>::empty());
            }
            assert(out@ =~= start + join(post, sep@));
        }
        i = i + 1;
    }
    assert(items@.subrange(0, i as int) =~= items@);
}

impl Value {
    /// The display text of the value.
    pub fn display(&self) -> (r: String)
        ensures
            r@ == value_text(self@),
    {
        match self {
            Value::Str(s) => s.clone(),
            Value::Ref(id, None) => id.clone(),
            Value::Ref(id, Some(p)) => {
                let mut out = id.clone();
                push_char(&mut out, '.');
                push_str(&mut out, p.as_str());
                out
            },
            Value::Tuple(nums) => {
                let mut out = String::new();
                push_char(&mut out, '(');
                let ghost start = out@;
                let mut i: usize = 0;
                while i < nums.len()
                    invariant
                        i <= nums@.len(),
                        start == seq!['('],
                        out@ == start + join_ints(nums@.subrange(0, i as int), seq![',']),
                    decreases nums@.len() - i,
                {
                    if i > 0 {
                        push_char(&mut out, ',');
                    }
                    let d = fmt_i32(nums[i]);
                    push_str(&mut out, d.as_str());
                    proof {
                        let pre = nums@.subrange(0, i as int);
                        let post = nums@.subrange(0, i + 1);
                        assert(post.drop_last() =~= pre);
                        if i == 0 {
                            assert(pre =~= Seq::<i32>::empty());
                        }
                        assert(out@ =~= start + join_ints(post, seq![',']));
                    }
                    i = i + 1;
                }
                assert(nums@.subrange(0, i as int) =~= nums@);
                push_char(&mut out, ')');
                out
            },
            Value::List(items) => {
                let mut out = String::new();
                push_joined(&mut out, items, ", ");
                proof {
                    reveal_strlit(", ");
                    assert(", "@ =~= seq![',', ' ']);
                    assert(out@ =~= join(strings_view(items@), seq![',', ' ']));
                }
                out
            },
        }
    }
}

} // verus!
