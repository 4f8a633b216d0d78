//! Span-based source edits: reposition a node by rewriting its `at:` prop.
//!
//! The source stays the single source of truth for an interactive editor:
//! a drag becomes a textual edit here, then a fresh compile. Everything
//! outside the edited range is preserved byte-for-byte.

use vstd::prelude::*;
use vstd::utf8::*;
use crate::ast::{
    Decl, DeclForm, DeclFormV, DeclKind, DeclV, PropV, PropVal, PropValV, form_props, kind_name,
    lemma_props_view, prop_view, props_view, strings_view,
};
use crate::compile::{source_decls, source_diagram};
use crate::diag::DiagEngine;
use crate::lexer::{lemma_lex_lines_len, lex, spec_lex};
use crate::model::{GroupV, entries_view, lemma_entries_view, lookup};
use crate::normalize::normalize;
use crate::parser::parse;
use crate::span::Span;
use crate::text::{
    at_boundary, bytes_of, dec_int, fmt_i32, lemma_boundary, lemma_decode_bytes, push_char, push_str,
    str_eq, string_of, substr, lemma_bytes_concat,
};

verus! {

broadcast use vstd::utf8::group_utf8_lib;

#[derive(Debug, Clone, PartialEq, Eq)]
pub enum EditError {
    UnknownId(String),
    NotPositionable { id: String, kind: String },
    FramedGroupMember { id: String, group: String },
}

pub enum EditErrorV {
    UnknownId(Seq<char>),
    NotPositionable { id: Seq<char>, kind: Seq<char> },
    FramedGroupMember { id: Seq<char>, group: Seq<char> },
}

impl View for EditError {
    type V = EditErrorV;

    open spec fn view(&self) -> EditErrorV {
        match self {
            EditError::UnknownId(id) => EditErrorV::UnknownId(id@),
            EditError::NotPositionable { id, kind } => EditErrorV::NotPositionable { id: id@, kind: kind@ },
            EditError::FramedGroupMember { id, group } => EditErrorV::FramedGroupMember {
                id: id@,
                group: group@,
            },
        }
    }
}

/// How an edit error reads.
pub open spec fn edit_error_text(e: EditErrorV) -> Seq<char> {
    match e {
        EditErrorV::UnknownId(id) => "no declaration with id `"@ + id + "`"@,
        EditErrorV::NotPositionable { id, kind } => "`"@ + id + "` is a "@ + kind
            + " and has no position of its own"@,
        EditErrorV::FramedGroupMember { id, group } => "`"@ + id + "` belongs to framed module `"@
            + group + "`; its position is set by the module"@,
    }
}

impl EditError {
    /// The error as a sentence.
    pub fn display(&self) -> (r: String)
        ensures
            r@ == edit_error_text(self@),
    {
        match self {
            EditError::UnknownId(id) => {
                let mut m = string_of("no declaration with id `");
                push_str(&mut m, id.as_str());
                push_str(&mut m, "`");
                m
            },
            EditError::NotPositionable { id, kind } => {
                let mut m = string_of("`");
                push_str(&mut m, id.as_str());
                push_str(&mut m, "` is a ");
                push_str(&mut m, kind.as_str());
                push_str(&mut m, " and has no position of its own");
                m
            },
            EditError::FramedGroupMember { id, group } => {
                let mut m = string_of("`");
                push_str(&mut m, id.as_str());
                push_str(&mut m, "` belongs to framed module `");
                push_str(&mut m, group.as_str());
                push_str(&mut m, "`; its position is set by the module");
                m
            },
        }
    }
}

// ---- What the edit does ----

/// Kinds whose `at:` prop layout honours.
pub open spec fn positionable(kind: DeclKind) -> bool {
    match kind {
        DeclKind::Equipment | DeclKind::Valve | DeclKind::Instrument | DeclKind::Junction
        | DeclKind::Note => true,
        _ => false,
    }
}

pub fn is_positionable(kind: DeclKind) -> (r: bool)
    ensures
        r == positionable(kind),
{
    match kind {
        DeclKind::Equipment | DeclKind::Valve | DeclKind::Instrument | DeclKind::Junction
        | DeclKind::Note => true,
        _ => false,
    }
}

/// Byte offset of the start of every line: 0, and each position right
/// after a newline.
pub open spec fn newline_starts(b: Seq<u8>) -> Seq<int>
    decreases b.len(),
{
    if b.len() == 0 {
        seq![0]
    } else if b.last() == 10 {
        newline_starts(b.drop_last()).push(b.len() as int)
    } else {
        newline_starts(b.drop_last())
    }
}

/// Line starts lie within the text and start with 0.
pub proof fn lemma_newline_starts(b: Seq<u8>)
    ensures
        newline_starts(b).len() >= 1,
        newline_starts(b)[0] == 0,
        forall|i: int| 0 <= i < newline_starts(b).len() ==> 0 <= #[trigger] newline_starts(b)[i] <= b.len(),
    decreases b.len(),
{
    if b.len() > 0 {
        lemma_newline_starts(b.drop_last());
    }
}

/// Byte offset of the start of every line, so line-relative spans can be
/// mapped into the source string.
fn line_starts(source: &str) -> (r: Vec<usize>)
    ensures
        r@.len() == newline_starts(bytes_of(source@)).len(),
        forall|i: int| 0 <= i < r@.len() ==> r@[i] as int == #[trigger] newline_starts(bytes_of(source@))[i],
{
    let b = source.as_bytes();
    proof {
        lemma_decode_bytes(source@);
    }
    let mut starts: Vec<usize> = vec![0];
    let mut i: usize = 0;
    assert(b@.subrange(0, 0) =~= Seq::<u8>::empty());
    while i < b.len()
        invariant
            b@ == bytes_of(source@),
            i <= b@.len(),
            starts@.len() == newline_starts(b@.subrange(0, i as int)).len(),
            forall|j: int| 0 <= j < starts@.len() ==> starts@[j] as int == #[trigger] newline_starts(b@.subrange(0, i as int))[j],
        decreases b@.len() - i,
    {
        let ghost pre = b@.subrange(0, i as int);
        let ghost post = b@.subrange(0, i + 1);
        assert(post.drop_last() =~= pre);
        if b[i] == 10 {
            starts.push(i + 1);
        }
        i = i + 1;
    }
    assert(b@.subrange(0, i as int) =~= b@);
    starts
}

/// Byte offset where the line of `sp` starts (0 when the line is unknown).
pub open spec fn span_base(st: Seq<int>, sp: Span) -> int {
    let k: int = if sp.line >= 1 { sp.line - 1 } else { 0 };
    if k < st.len() { st[k] } else { 0 }
}

/// The first declaration with id `id`.
pub open spec fn find_decl(ds: Seq<DeclV>, id: Seq<char>) -> Option<DeclV>
    decreases ds.len(),
{
    if ds.len() == 0 {
        None
    } else if ds[0].id == id {
        Some(ds[0])
    } else {
        find_decl(ds.drop_first(), id)
    }
}

/// The id of the first framed group, in declaration order, that lists `id`
/// among its members.
pub open spec fn framed_owner(gs: Seq<(Seq<char>, GroupV)>, id: Seq<char>) -> Option<Seq<char>>
    decreases gs.len(),
{
    if gs.len() == 0 {
        None
    } else if gs[0].1.frame && gs[0].1.members.contains(id) {
        Some(gs[0].1.id)
    } else {
        framed_owner(gs.drop_first(), id)
    }
}

/// The first `at` property that has a plain value.
pub open spec fn first_value_at(ps: Seq<PropV>) -> Option<PropV>
    decreases ps.len(),
{
    if ps.len() == 0 {
        None
    } else if ps[0].key == "at"@ && ps[0].value is Value {
        Some(ps[0])
    } else {
        first_value_at(ps.drop_first())
    }
}

/// `prefix(x,y)suffix`.
pub open spec fn placed(prefix: Seq<char>, x: i32, y: i32, suffix: Seq<char>) -> Seq<char> {
    prefix + seq!['('] + dec_int(x as int) + seq![','] + dec_int(y as int) + seq![')'] + suffix
}

/// Where the source is cut and what goes in between: the edit keeps bytes
/// `[0, cut)` and `[resume, end)` and puts the text between them.
pub struct Splice {
    pub cut: int,
    pub resume: int,
    pub text: Seq<char>,
}

/// The splice for declaration `d` of a source with bytes `b`.
///
/// An existing `at` with a plain value is replaced in place (a trailing
/// comment on its line survives, since the property ends at its value). A
/// block declaration without one gets a new indented line right under its
/// header (appended, on a line of its own, when the header is the last
/// line). An inline declaration without one gets ` at=(x,y)` after its
/// last property, or after its id.
pub open spec fn splice_for(b: Seq<u8>, d: DeclV, x: i32, y: i32) -> Splice {
    let st = newline_starts(b);
    match d.form {
        DeclFormV::Block(ps) => match first_value_at(ps) {
            Some(p) => Splice {
                cut: span_base(st, p.span) + p.span.start,
                resume: span_base(st, p.span) + p.span.end,
                text: placed("at: "@, x, y, ""@),
            },
            None => {
                let hl = d.span.line as int;
                if hl < st.len() {
                    Splice { cut: st[hl], resume: st[hl], text: placed("  at: "@, x, y, "\n"@) }
                } else {
                    Splice {
                        cut: b.len() as int,
                        resume: b.len() as int,
                        text: (if b.len() > 0 && b.last() == 10 {
                            Seq::empty()
                        } else {
                            seq!['\n']
                        }) + placed("  at: "@, x, y, "\n"@),
                    }
                }
            },
        },
        DeclFormV::Inline(ps) => match first_value_at(ps) {
            Some(p) => Splice {
                cut: span_base(st, p.span) + p.span.start,
                resume: span_base(st, p.span) + p.span.end,
                text: placed("at="@, x, y, ""@),
            },
            None => {
                let a = if ps.len() > 0 {
                    span_base(st, ps.last().span) + ps.last().span.end
                } else {
                    span_base(st, d.span) + d.span.end
                };
                Splice { cut: a, resume: a, text: placed(" at="@, x, y, ""@) }
            },
        },
    }
}

/// What repositioning `id` in `src` does: the error it is refused with, or
/// the splice that puts `at: (x,y)` on it.
///
/// The declaration is the first with that id. A group is movable only when
/// it is framed; other kinds only when layout honours their position; a
/// member of a framed group is placed by its group and refused.
pub open spec fn edit_plan(src: Seq<char>, id: Seq<char>, x: i32, y: i32) -> Result<Splice, EditErrorV> {
    match find_decl(source_decls(src), id) {
        None => Err(EditErrorV::UnknownId(id)),
        Some(d) => {
            let g = source_diagram(src);
            if d.kind == DeclKind::Group && !(match lookup(g.groups, id) {
                Some(gr) => gr.frame,
                None => false,
            }) {
                Err(EditErrorV::NotPositionable { id, kind: "group without frame"@ })
            } else if d.kind != DeclKind::Group && !positionable(d.kind) {
                Err(EditErrorV::NotPositionable { id, kind: kind_name(d.kind) })
            } else {
                match framed_owner(g.groups, id) {
                    Some(gid) => Err(EditErrorV::FramedGroupMember { id, group: gid }),
                    None => Ok(splice_for(bytes_of(src), d, x, y)),
                }
            }
        },
    }
}

/// Sources the edit can work on: their length leaves room for the
/// parser's counters and for the lexer's 32-bit line numbers.
pub open spec fn edit_applies(src: Seq<char>) -> bool {
    &&& bytes_of(src).len() < usize::MAX / 4
    &&& bytes_of(src).len() < u32::MAX
}

// ---- Carrying the edit out ----

/// The first declaration with id `id`.
fn find_decl_by_id<'a>(decls: &'a Vec<Decl>, id: &str) -> (r: Option<&'a Decl>)
    ensures
        match r {
            Some(d) => find_decl(crate::ast::decls_view(decls@), id@) == Some(d@),
            None => find_decl(crate::ast::decls_view(decls@), id@) is None,
        },
{
    let ghost ds = crate::ast::decls_view(decls@);
    assert(ds.subrange(0, ds.len() as int) =~= ds);
    let mut i: usize = 0;
    while i < decls.len()
        invariant
            i <= decls@.len(),
            ds == crate::ast::decls_view(decls@),
            find_decl(ds, id@) == find_decl(ds.subrange(i as int, ds.len() as int), id@),
        decreases decls@.len() - i,
    {
        let ghost rest = ds.subrange(i as int, ds.len() as int);
        assert(rest.drop_first() =~= ds.subrange(i + 1, ds.len() as int));
        assert(rest[0] == decls@[i as int]@);
        if str_eq(decls[i].id.as_str(), id) {
            return Some(&decls[i]);
        }
        i = i + 1;
    }
    assert(ds.subrange(i as int, ds.len() as int) =~= Seq::<DeclV>::empty());
    None
}

/// The first `at` property with a plain value.
fn find_value_at<'a>(props: &'a [crate::ast::Prop]) -> (r: Option<&'a crate::ast::Prop>)
    ensures
        match r {
            Some(p) => first_value_at(props_view(props@)) == Some(prop_view(*p)),
            None => first_value_at(props_view(props@)) is None,
        },
{
    let ghost pv = props_view(props@);
    proof {
        lemma_props_view(props@);
        assert(pv.subrange(0, pv.len() as int) =~= pv);
    }
    let mut i: usize = 0;
    while i < props.len()
        invariant
            i <= props@.len(),
            pv == props_view(props@),
            pv.len() == props@.len(),
            forall|j: int| 0 <= j < props@.len() ==> #[trigger] pv[j] == prop_view(props@[j]),
            first_value_at(pv) == first_value_at(pv.subrange(i as int, pv.len() as int)),
        decreases props@.len() - i,
    {
        let ghost rest = pv.subrange(i as int, pv.len() as int);
        assert(rest.drop_first() =~= pv.subrange(i + 1, pv.len() as int));
        assert(rest[0] == pv[i as int]);
        let is_value = match &props[i].value {
            PropVal::Value(_) => true,
            PropVal::Block(_) => false,
        };
        if str_eq(props[i].key.as_str(), "at") && is_value {
            return Some(&props[i]);
        }
        i = i + 1;
    }
    assert(pv.subrange(i as int, pv.len() as int) =~= Seq::<PropV>::empty());
    None
}

/// The id of the first framed group that lists `id` among its members:
/// such a member is placed by its module, not by its own position.
pub fn find_framed_owner(groups: &crate::model::IdMap<crate::model::Group>, id: &str) -> (r: Option<String>)
    requires
        groups.wf(),
    ensures
        ostr_opt(r) == framed_owner(entries_view(groups.entries()), id@),
{
    let ghost gs = entries_view(groups.entries());
    let vals = groups.values();
    proof {
        groups.lemma_wf();
        assert(gs.subrange(0, gs.len() as int) =~= gs);
    }
    let mut i: usize = 0;
    while i < vals.len()
        invariant
            i <= vals@.len(),
            gs == entries_view(groups.entries()),
            vals@.len() == gs.len(),
            forall|j: int| 0 <= j < vals@.len() ==> #[trigger] gs[j].1 == vals@[j]@,
            framed_owner(gs, id@) == framed_owner(gs.subrange(i as int, gs.len() as int), id@),
        decreases vals@.len() - i,
    {
        let ghost rest = gs.subrange(i as int, gs.len() as int);
        assert(rest.drop_first() =~= gs.subrange(i + 1, gs.len() as int));
        assert(rest[0].1 == vals@[i as int]@);
        let g = &vals[i];
        if g.frame && lists_member(&g.members, id) {
            proof {
                assert(rest[0].1.members == strings_view(g.members@));
                assert(framed_owner(rest, id@) == Some(g.id@));
            }
            return Some(g.id.clone());
        }
        i = i + 1;
    }
    assert(gs.subrange(i as int, gs.len() as int) =~= Seq::<(Seq<char>, GroupV)>::empty());
    None
}

/// Whether `id` is one of `members`.
fn lists_member(members: &Vec<String>, id: &str) -> (r: bool)
    ensures
        r == strings_view(members@).contains(id@),
{
    let mut k: usize = 0;
    while k < members.len()
        invariant
            k <= members@.len(),
            forall|j: int| 0 <= j < k ==> members@[j]@ != id@,
        decreases members@.len() - k,
    {
        if str_eq(members[k].as_str(), id) {
            assert(strings_view(members@)[k as int] == id@);
            return true;
        }
        k = k + 1;
    }
    proof {
        let ms = strings_view(members@);
        if ms.contains(id@) {
            let j = choose|j: int| 0 <= j < ms.len() && ms[j] == id@;
            assert(members@[j]@ == id@);
        }
    }
    false
}

/// An optional string, by its characters.
pub open spec fn ostr_opt(o: Option<String>) -> Option<Seq<char>> {
    match o {
        Some(s) => Some(s@),
        None => None,
    }
}

/// `base + off`, where `base` is the start of the span's line, if it does
/// not pass `len`.
fn offset_in(starts: &Vec<usize>, sp: Span, off: usize, len: usize) -> (r: Option<usize>)
    requires
        forall|i: int| 0 <= i < starts@.len() ==> starts@[i] <= len,
    ensures
        ({
            let st = starts@.map_values(|v: usize| v as int);
            let base = span_base(st, sp);
            match r {
                Some(v) => v == base + off && base + off <= len,
                None => base + off > len,
            }
        }),
{
    let k: usize = if sp.line >= 1 { (sp.line - 1) as usize } else { 0 };
    let base: usize = if k < starts.len() { starts[k] } else { 0 };
    if off <= len - base {
        Some(base + off)
    } else {
        None
    }
}

/// `prefix(x,y)suffix`.
fn placed_text(prefix: &str, x: i32, y: i32, suffix: &str) -> (r: String)
    ensures
        r@ == placed(prefix@, x, y, suffix@),
{
    let mut m = string_of(prefix);
    push_char(&mut m, '(');
    let a = fmt_i32(x);
    push_str(&mut m, a.as_str());
    push_char(&mut m, ',');
    let b = fmt_i32(y);
    push_str(&mut m, b.as_str());
    push_char(&mut m, ')');
    push_str(&mut m, suffix);
    m
}

/// Works out the edit without touching the source: the error, or the cut
/// points and the text to put between them (`None` when a cut point lies
/// past the end of the source).
fn plan_edit(source: &str, id: &str, x: i32, y: i32) -> (r: Result<Option<(usize, usize, String)>, EditError>)
    requires
        bytes_of(source@).len() < usize::MAX / 4,
    ensures
        match r {
            Err(e) => edit_plan(source@, id@, x, y) == Err::<Splice, EditErrorV>(e@),
            Ok(None) => edit_plan(source@, id@, x, y) matches Ok(sp) && (sp.cut > bytes_of(source@).len()
                || sp.resume > bytes_of(source@).len()),
            Ok(Some(t)) => edit_plan(source@, id@, x, y) == Ok::<Splice, EditErrorV>(
                Splice { cut: t.0 as int, resume: t.1 as int, text: t.2@ },
            ) && t.0 <= bytes_of(source@).len() && t.1 <= bytes_of(source@).len(),
        },
{
    // Throwaway diagnostics: unrelated errors elsewhere in the file must not
    // block repositioning a node that parses fine.
    let mut diags = DiagEngine::new();
    let lex_lines = lex(source, &mut diags);
    proof {
        lemma_lex_lines_len(bytes_of(source@), 0, 0);
    }
    let doc = parse(&lex_lines, &mut diags);
    let decl = match find_decl_by_id(&doc.decls, id) {
        Some(d) => d,
        None => return Err(EditError::UnknownId(string_of(id))),
    };
    let diagram = normalize(&doc, &mut diags);
    // Framed groups are positionable as whole modules; anything else must
    // be a kind whose `at:` layout honours.
    if decl.kind == DeclKind::Group {
        proof {
            diagram.groups.lemma_wf();
            lemma_entries_view(diagram.groups.entries(), id@);
        }
        let framed = match diagram.groups.get(id) {
            Some(g) => g.frame,
            None => false,
        };
        if !framed {
            return Err(
                EditError::NotPositionable { id: string_of(id), kind: string_of("group without frame") },
            );
        }
    } else if !is_positionable(decl.kind) {
        return Err(EditError::NotPositionable { id: string_of(id), kind: string_of(decl.kind.name()) });
    }
    // Layout ignores `at:` on framed-group members (the module places them),
    // so the edit is refused instead of writing a dead prop.
    if let Some(gid) = find_framed_owner(&diagram.groups, id) {
        return Err(EditError::FramedGroupMember { id: string_of(id), group: gid });
    }
    let b = source.as_bytes();
    let len = b.len();
    let starts = line_starts(source);
    proof {
        lemma_decode_bytes(source@);
        lemma_newline_starts(bytes_of(source@));
        assert(starts@.map_values(|v: usize| v as int) =~= newline_starts(bytes_of(source@)));
        assert(b@ == bytes_of(source@));
        assert forall|i: int| 0 <= i < starts@.len() implies starts@[i] <= len by {
            assert(starts@[i] as int == newline_starts(bytes_of(source@))[i]);
        }
    }
    let ghost d = decl@;
    let ghost sp = splice_for(bytes_of(source@), d, x, y);
    match &decl.form {
        DeclForm::Block(props) => match find_value_at(props.as_slice()) {
            Some(p) => {
                let c = offset_in(&starts, p.span, p.span.start, len);
                let e = offset_in(&starts, p.span, p.span.end, len);
                match (c, e) {
                    (Some(c), Some(e)) => Ok(Some((c, e, placed_text("at: ", x, y, "")))),
                    _ => Ok(None),
                }
            },
            None => {
                let hl = decl.span.line as usize;
                if hl < starts.len() {
                    Ok(Some((starts[hl], starts[hl], placed_text("  at: ", x, y, "\n"))))
                } else {
                    let mut t = String::new();
                    if !(len > 0 && b[len - 1] == 10) {
                        push_char(&mut t, '\n');
                    }
                    let p = placed_text("  at: ", x, y, "\n");
                    push_str(&mut t, p.as_str());
                    proof {
                        assert(t@ =~= sp.text);
                    }
                    Ok(Some((len, len, t)))
                }
            },
        },
        DeclForm::Inline(props) => match find_value_at(props.as_slice()) {
            Some(p) => {
                let c = offset_in(&starts, p.span, p.span.start, len);
                let e = offset_in(&starts, p.span, p.span.end, len);
                match (c, e) {
                    (Some(c), Some(e)) => Ok(Some((c, e, placed_text("at=", x, y, "")))),
                    _ => Ok(None),
                }
            },
            None => {
                // Append after the last inline prop (or the id when there
                // are none), staying ahead of any trailing comment.
                let anchor_span = if props.len() > 0 {
                    proof {
                        lemma_props_view(props@);
                    }
                    props[props.len() - 1].span
                } else {
                    decl.span
                };
                match offset_in(&starts, anchor_span, anchor_span.end, len) {
                    Some(a) => Ok(Some((a, a, placed_text(" at=", x, y, "")))),
                    None => Ok(None),
                }
            },
        },
    }
}

/// Rewrites `source` so that the declaration `id` carries `at: (x,y)`,
/// replacing its first `at` with a plain value or inserting one. Returns
/// the whole modified source: the bytes before the cut point, the new
/// text, and the bytes from the resume point on.
pub fn set_node_position(source: &str, id: &str, x: i32, y: i32) -> (r: Result<String, EditError>)
    requires
        edit_applies(source@),
    ensures
        match r {
            Ok(out) => edit_plan(source@, id@, x, y) matches Ok(sp) && sp.cut <= sp.resume && out@ == decode_utf8(
                bytes_of(source@).subrange(0, sp.cut),
            ) + sp.text + decode_utf8(
                bytes_of(source@).subrange(sp.resume, bytes_of(source@).len() as int),
            ) && bytes_of(out@) == bytes_of(source@).subrange(0, sp.cut) + bytes_of(sp.text)
                + bytes_of(source@).subrange(sp.resume, bytes_of(source@).len() as int),
            Err(e) => edit_plan(source@, id@, x, y) == Err::<Splice, EditErrorV>(e@),
        },
{
    proof {
        crate::cuts::lemma_splice_cuts(source@, id@, x, y);
        lemma_decode_bytes(source@);
    }
    match plan_edit(source, id, x, y) {
        Err(e) => Err(e),
        Ok(None) => {
            proof {
                assert(false);
            }
            Err(EditError::UnknownId(string_of(id)))
        },
        Ok(Some((c, e, text))) => {
            let len = source.as_bytes().len();
            proof {
                lemma_boundary(bytes_of(source@), 0);
            }
            let head = substr(source, 0, c);
            let tail = substr(source, e, len);
            let mut out = string_of(head);
            push_str(&mut out, text.as_str());
            push_str(&mut out, tail);
            proof {
                lemma_bytes_concat(head@, text@);
                lemma_bytes_concat(head@ + text@, tail@);
            }
            Ok(out)
        },
    }
}

/// Whether `set_node_position` can work on `source`: its length leaves
/// room for the parser's counters and the lexer's 32-bit line numbers.
pub fn edit_is_applicable(source: &str) -> (r: bool)
    ensures
        r == edit_applies(source@),
{
    let len = source.as_bytes().len();
    proof {
        lemma_decode_bytes(source@);
    }
    len < usize::MAX / 4 && len < 0xffff_ffff
}

/// Every kind that carries a position of its own can be moved: a
/// declaration of equipment, a valve, an instrument, a junction or a note
/// that no framed group owns gets a splice; lines, signals and areas are
/// refused as having no position, naming their kind.
pub proof fn lemma_positioned_kinds_move(src: Seq<char>, id: Seq<char>, x: i32, y: i32)
    ensures
        find_decl(source_decls(src), id) matches Some(d) ==> {
            &&& (d.kind == DeclKind::Equipment || d.kind == DeclKind::Valve || d.kind
                == DeclKind::Instrument || d.kind == DeclKind::Junction || d.kind == DeclKind::Note)
                && framed_owner(source_diagram(src).groups, id) is None ==> edit_plan(src, id, x, y)
                == Ok::<Splice, EditErrorV>(splice_for(bytes_of(src), d, x, y))
            &&& d.kind == DeclKind::Line ==> edit_plan(src, id, x, y) == Err::<Splice, EditErrorV>(
                EditErrorV::NotPositionable { id, kind: "line"@ },
            )
            &&& d.kind == DeclKind::Signal ==> edit_plan(src, id, x, y) == Err::<Splice, EditErrorV>(
                EditErrorV::NotPositionable { id, kind: "signal"@ },
            )
            &&& d.kind == DeclKind::Area ==> edit_plan(src, id, x, y) == Err::<Splice, EditErrorV>(
                EditErrorV::NotPositionable { id, kind: "area"@ },
            )
        },
{
}

/// The first framed group, in declaration order, that lists `id` owns it.
proof fn lemma_framed_owner_first(gs: Seq<(Seq<char>, GroupV)>, id: Seq<char>, k: int)
    requires
        0 <= k < gs.len(),
        gs[k].1.frame,
        gs[k].1.members.contains(id),
        forall|a: int| 0 <= a < k ==> !((#[trigger] gs[a]).1.frame && gs[a].1.members.contains(id)),
    ensures
        framed_owner(gs, id) == Some(gs[k].1.id),
    decreases gs.len(),
{
    if k > 0 {
        assert forall|a: int| 0 <= a < k - 1 implies !((#[trigger] gs.drop_first()[a]).1.frame
            && gs.drop_first()[a].1.members.contains(id)) by {
            assert(gs.drop_first()[a] == gs[a + 1]);
        }
        assert(!(gs[0].1.frame && gs[0].1.members.contains(id)));
        lemma_framed_owner_first(gs.drop_first(), id, k - 1);
    }
}

/// No framed group lists `id`: nothing owns it.
proof fn lemma_framed_owner_none(gs: Seq<(Seq<char>, GroupV)>, id: Seq<char>)
    requires
        forall|a: int| 0 <= a < gs.len() ==> !((#[trigger] gs[a]).1.frame && gs[a].1.members.contains(id)),
    ensures
        framed_owner(gs, id) is None,
    decreases gs.len(),
{
    if gs.len() > 0 {
        assert forall|a: int| 0 <= a < gs.drop_first().len() implies !((#[trigger] gs.drop_first()[a]).1.frame
            && gs.drop_first()[a].1.members.contains(id)) by {
            assert(gs.drop_first()[a] == gs[a + 1]);
        }
        lemma_framed_owner_none(gs.drop_first(), id);
    }
}

/// Who may not be moved: an unknown id is refused as such; a member of a
/// framed group is refused naming the first framed group that lists it; a
/// movable node that no framed group lists gets its splice.
pub proof fn lemma_edit_refusals(src: Seq<char>, id: Seq<char>, x: i32, y: i32, k: int)
    ensures
        (forall|i: int| 0 <= i < source_decls(src).len() ==> (#[trigger] source_decls(src)[i]).id != id)
            ==> edit_plan(src, id, x, y) == Err::<Splice, EditErrorV>(EditErrorV::UnknownId(id)),
        ({
            let gs = source_diagram(src).groups;
            let od = find_decl(source_decls(src), id);
            od is Some && (od->Some_0.kind == DeclKind::Equipment || od->Some_0.kind == DeclKind::Valve
                || od->Some_0.kind == DeclKind::Instrument || od->Some_0.kind == DeclKind::Junction
                || od->Some_0.kind == DeclKind::Note) && 0 <= k < gs.len() && gs[k].1.frame
                && gs[k].1.members.contains(id) && (forall|a: int| 0 <= a < k ==> !((#[trigger] gs[a]).1.frame
                && gs[a].1.members.contains(id))) ==> edit_plan(src, id, x, y) == Err::<Splice, EditErrorV>(
                EditErrorV::FramedGroupMember { id, group: gs[k].1.id },
            )
        }),
        ({
            let gs = source_diagram(src).groups;
            let od = find_decl(source_decls(src), id);
            od is Some && (od->Some_0.kind == DeclKind::Equipment || od->Some_0.kind == DeclKind::Valve
                || od->Some_0.kind == DeclKind::Instrument || od->Some_0.kind == DeclKind::Junction
                || od->Some_0.kind == DeclKind::Note) && (forall|a: int| 0 <= a < gs.len() ==> !((#[trigger] gs[a]).1.frame
                && gs[a].1.members.contains(id))) ==> edit_plan(src, id, x, y) == Ok::<Splice, EditErrorV>(
                splice_for(bytes_of(src), od->Some_0, x, y),
            )
        }),
{
    let ds = source_decls(src);
    let gs = source_diagram(src).groups;
    lemma_find_decl_none(ds, id);
    if 0 <= k < gs.len() && gs[k].1.frame && gs[k].1.members.contains(id) && (forall|a: int|
        0 <= a < k ==> !((#[trigger] gs[a]).1.frame && gs[a].1.members.contains(id))) {
        lemma_framed_owner_first(gs, id, k);
    }
    if forall|a: int| 0 <= a < gs.len() ==> !((#[trigger] gs[a]).1.frame && gs[a].1.members.contains(id)) {
        lemma_framed_owner_none(gs, id);
    }
}

proof fn lemma_find_decl_none(ds: Seq<DeclV>, id: Seq<char>)
    ensures
        (forall|i: int| 0 <= i < ds.len() ==> (#[trigger] ds[i]).id != id) ==> find_decl(ds, id) is None,
    decreases ds.len(),
{
    if ds.len() > 0 {
        if forall|i: int| 0 <= i < ds.len() ==> (#[trigger] ds[i]).id != id {
            assert(ds[0].id != id);
            assert forall|i: int| 0 <= i < ds.drop_first().len() implies (#[trigger] ds.drop_first()[i]).id != id by {
                assert(ds.drop_first()[i] == ds[i + 1]);
            }
        }
        lemma_find_decl_none(ds.drop_first(), id);
    }
}

/// Whatever the edit writes is the position `(x,y)` in declaration syntax,
/// x first: `at: (x,y)` in a block (on a line of its own, indented, when
/// inserted) or `at=(x,y)` among inline properties (after a space, when
/// appended), with nothing else but that layout around it.
pub proof fn lemma_edit_writes_the_position(src: Seq<char>, id: Seq<char>, x: i32, y: i32)
    ensures
        edit_plan(src, id, x, y) matches Ok(sp) ==> {
            let a = placed("at: "@, x, y, ""@);
            let i = placed("at="@, x, y, ""@);
            ||| sp.text == a
            ||| sp.text == "  "@ + a + "\n"@
            ||| sp.text == "\n  "@ + a + "\n"@
            ||| sp.text == i
            ||| sp.text == " "@ + i
        },
{
    reveal_strlit("at: ");
    reveal_strlit("  at: ");
    reveal_strlit("at=");
    reveal_strlit(" at=");
    reveal_strlit("  ");
    reveal_strlit(" ");
    reveal_strlit("\n  ");
    reveal_strlit("\n");
    reveal_strlit("");
    if let Ok(sp) = edit_plan(src, id, x, y) {
        let d = find_decl(source_decls(src), id)->Some_0;
        let b = bytes_of(src);
        assert(sp == splice_for(b, d, x, y));
        let e = ""@;
        let a = "at: "@;
        let i = "at="@;
        let core_a = placed(a, x, y, e);
        let core_i = placed(i, x, y, e);
        assert(placed(a, x, y, e) =~= a + seq!['('] + dec_int(x as int) + seq![','] + dec_int(y as int) + seq![')']);
        assert(placed(i, x, y, e) =~= i + seq!['('] + dec_int(x as int) + seq![','] + dec_int(y as int) + seq![')']);
        assert(placed("  at: "@, x, y, "\n"@) =~= "  "@ + core_a + "\n"@);
        assert(placed(" at="@, x, y, e) =~= " "@ + core_i);
        assert(seq!['\n'] + placed("  at: "@, x, y, "\n"@) =~= "\n  "@ + core_a + "\n"@);
        assert(Seq::<char>::empty() + placed("  at: "@, x, y, "\n"@) =~= "  "@ + core_a + "\n"@);
    }
}

} // verus!
