//! The textual side of SVG rendering: options, escaping, label splitting,
//! style sheets, legend and table contents. Coordinates and drawing are
//! computed in floating point by the drawing front end.

use vstd::prelude::*;
use vstd::string::StrSliceExecFns;
use vstd::std_specs::iter::IteratorSpec;
use crate::model::{Diagram, DiagramV, EquipmentV, InstrumentV, LineV, SignalV, Valve, ValveV, lookup, lemma_entries_view, entries_view, ostr};
use crate::symbols::{
    equipment_key_of, equipment_symbol_key, instrument_key_of, instrument_symbol_key, ostr_slice,
    valve_key_of, valve_symbol_key,
};
use crate::text::{push_char, push_str, str_eq, str_upper, string_of, upper_str};

verus! {

broadcast use vstd::string::group_string_axioms;

// ---- Options ----

#[derive(Debug, Clone)]
pub struct SvgOptions {
    pub width: Option<u32>,
    pub height: Option<u32>,
    pub pretty: bool,
    pub no_route: bool,
    /// Append a legend box below the drawing explaining used symbols.
    pub legend: bool,
    /// Append the equipment data table.
    pub table: bool,
    /// Title block text, drawn bottom-right.
    pub title: Option<String>,
    /// Footer lines under the title.
    pub footers: Vec<String>,
}

impl Default for SvgOptions {
    fn default() -> (r: Self)
        ensures
            r.width is None,
            r.height is None,
            !r.pretty,
            !r.no_route,
            !r.legend,
            !r.table,
            r.title is None,
            r.footers@.len() == 0,
    {
        Self {
            width: None,
            height: None,
            pretty: false,
            no_route: false,
            legend: false,
            table: false,
            title: None,
            footers: Vec::new(),
        }
    }
}

// ---- Escaping ----

/// The XML escape of one character.
pub open spec fn xml_char(c: char) -> Seq<char> {
    if c == '&' {
        "&amp;"@
    } else if c == '<' {
        "&lt;"@
    } else if c == '>' {
        "&gt;"@
    } else if c == '"' {
        "&quot;"@
    } else {
        seq![c]
    }
}

/// Text with `&`, `<`, `>` and `"` replaced by their entities.
pub open spec fn xml_escaped(s: Seq<char>) -> Seq<char>
    decreases s.len(),
{
    if s.len() == 0 {
        Seq::empty()
    } else {
        xml_escaped(s.drop_last()) + xml_char(s.last())
    }
}

pub fn escape_xml(s: &str) -> (r: String)
    ensures
        r@ == xml_escaped(s@),
{
    let ghost cs = s@;
    let mut chars = s.chars();
    let mut out = String::new();
    let ghost mut k: int = 0;
    assert(cs.subrange(0, cs.len() as int) =~= cs);
    assert(cs.subrange(0, 0) =~= Seq::<char>::empty());
    loop
        invariant_except_break
            0 <= k <= cs.len(),
            chars.remaining() == cs.subrange(k, cs.len() as int),
            out@ == xml_escaped(cs.subrange(0, k)),
        ensures
            out@ == xml_escaped(cs),
        decreases cs.len() - k,
    {
        match chars.next() {
            None => {
                assert(cs.subrange(0, k) =~= cs);
                break ;
            },
            Some(c) => {
                assert(c == cs[k]);
                if c == '&' {
                    push_str(&mut out, "&amp;");
                } else if c == '<' {
                    push_str(&mut out, "&lt;");
                } else if c == '>' {
                    push_str(&mut out, "&gt;");
                } else if c == '"' {
                    push_str(&mut out, "&quot;");
                } else {
                    push_char(&mut out, c);
                }
                proof {
                    assert(cs.subrange(0, k + 1).drop_last() =~= cs.subrange(0, k));
                    k = k + 1;
                    assert(chars.remaining() =~= cs.subrange(k, cs.len() as int));
                }
            },
        }
    }
    out
}

/// The JSON string literal of a text: quoted, with `"` and `\` escaped and
/// control characters written as `\u00XX`.
pub open spec fn json_char(c: char) -> Seq<char> {
    if c == '"' {
        seq!['\\', '"']
    } else if c == '\\' {
        seq!['\\', '\\']
    } else if (c as u32) < 0x20 {
        seq!['\\', 'u', '0', '0', hex_digit((c as u32) / 16), hex_digit((c as u32) % 16)]
    } else {
        seq![c]
    }
}

/// A lower-case hexadecimal digit.
pub open spec fn hex_digit(d: u32) -> char {
    if d < 10 {
        ((d + 48) as u8) as char
    } else {
        ((d + 87) as u8) as char
    }
}

pub open spec fn json_body(s: Seq<char>) -> Seq<char>
    decreases s.len(),
{
    if s.len() == 0 {
        Seq::empty()
    } else {
        json_body(s.drop_last()) + json_char(s.last())
    }
}

pub open spec fn json_text(s: Seq<char>) -> Seq<char> {
    seq!['"'] + json_body(s) + seq!['"']
}

fn hex_char(d: u32) -> (c: char)
    requires
        d < 16,
    ensures
        c == hex_digit(d),
{
    if d < 10 {
        ((d + 48) as u8) as char
    } else {
        ((d + 87) as u8) as char
    }
}

/// The text as a JSON string literal.
pub fn json_string(s: &str) -> (r: String)
    ensures
        r@ == json_text(s@),
{
    let ghost cs = s@;
    let mut chars = s.chars();
    let mut out = String::new();
    push_char(&mut out, '"');
    let ghost mut k: int = 0;
    assert(cs.subrange(0, cs.len() as int) =~= cs);
    assert(cs.subrange(0, 0) =~= Seq::<char>::empty());
    loop
        invariant_except_break
            0 <= k <= cs.len(),
            chars.remaining() == cs.subrange(k, cs.len() as int),
            out@ == seq!['"'] + json_body(cs.subrange(0, k)),
        ensures
            out@ == seq!['"'] + json_body(cs),
        decreases cs.len() - k,
    {
        match chars.next() {
            None => {
                assert(cs.subrange(0, k) =~= cs);
                break ;
            },
            Some(c) => {
                assert(c == cs[k]);
                let ghost before = out@;
                if c == '"' {
                    push_char(&mut out, '\\');
                    push_char(&mut out, '"');
                } else if c == '\\' {
                    push_char(&mut out, '\\');
                    push_char(&mut out, '\\');
                } else if (c as u32) < 0x20 {
                    push_char(&mut out, '\\');
                    push_char(&mut out, 'u');
                    push_char(&mut out, '0');
                    push_char(&mut out, '0');
                    push_char(&mut out, hex_char((c as u32) / 16));
                    push_char(&mut out, hex_char((c as u32) % 16));
                } else {
                    push_char(&mut out, c);
                }
                proof {
                    assert(out@ =~= before + json_char(c));
                    assert(cs.subrange(0, k + 1).drop_last() =~= cs.subrange(0, k));
                    k = k + 1;
                    assert(chars.remaining() =~= cs.subrange(k, cs.len() as int));
                }
            },
        }
    }
    push_char(&mut out, '"');
    out
}

// ---- Labels ----

/// Text split at each newline; there is always at least one piece.
pub open spec fn split_lines(s: Seq<char>) -> Seq<Seq<char>>
    decreases s.len(),
{
    if s.len() == 0 {
        seq![Seq::empty()]
    } else {
        let r = split_lines(s.drop_last());
        if s.last() == '\n' {
            r.push(Seq::empty())
        } else {
            r.update(r.len() - 1, r.last().push(s.last()))
        }
    }
}

pub proof fn lemma_split_lines_len(s: Seq<char>)
    ensures
        split_lines(s).len() >= 1,
    decreases s.len(),
{
    if s.len() > 0 {
        lemma_split_lines_len(s.drop_last());
    }
}

/// The pieces of a sequence of string slices, by their characters.
pub open spec fn pieces_view(v: Seq<&str>) -> Seq<Seq<char>> {
    v.map_values(|s: &str| s@)
}

/// Split a label into display lines (the lexer turns `\n` escapes in
/// quoted strings into real newlines).
pub fn label_lines(label: &str) -> (r: Vec<&str>)
    ensures
        pieces_view(r@) == split_lines(label@),
{
    let ghost cs = label@;
    let n = label.unicode_len();
    let mut chars = label.chars();
    let mut out: Vec<&str> = Vec::new();
    let mut start: usize = 0;
    let mut k: usize = 0;
    assert(cs.subrange(0, cs.len() as int) =~= cs);
    assert(cs.subrange(0, 0) =~= Seq::<char>::empty());
    assert(pieces_view(out@).push(cs.subrange(0, 0)) =~= split_lines(cs.subrange(0, 0)));
    loop
        invariant_except_break
            0 <= start <= k <= cs.len(),
            cs == label@,
            n == cs.len(),
            chars.remaining() == cs.subrange(k as int, cs.len() as int),
            pieces_view(out@).push(cs.subrange(start as int, k as int)) == split_lines(cs.subrange(0, k as int)),
        ensures
            k == cs.len(),
            cs == label@,
            start <= k,
            pieces_view(out@).push(cs.subrange(start as int, k as int)) == split_lines(cs),
        decreases cs.len() - k,
    {
        match chars.next() {
            None => {
                assert(cs.subrange(0, k as int) =~= cs);
                break ;
            },
            Some(c) => {
                assert(c == cs[k as int]);
                let ghost pre = cs.subrange(0, k as int);
                let ghost post = cs.subrange(0, k + 1);
                assert(post.drop_last() =~= pre);
                if c == '\n' {
                    let ghost before = pieces_view(out@);
                    let piece = label.substring_char(start, k);
                    out.push(piece);
                    assert(pieces_view(out@) =~= before.push(cs.subrange(start as int, k as int)));
                    start = k + 1;
                    assert(cs.subrange(start as int, k + 1) =~= Seq::<char>::empty());
                    assert(pieces_view(out@).push(cs.subrange(start as int, k + 1)) =~= split_lines(post));
                } else {
                    proof {
                        lemma_split_lines_len(pre);
                        assert(cs.subrange(start as int, k + 1) =~= cs.subrange(start as int, k as int).push(c));
                        assert(pieces_view(out@).push(cs.subrange(start as int, k + 1)) =~= split_lines(post));
                    }
                }
                k = k + 1;
                proof {
                    assert(chars.remaining() =~= cs.subrange(k as int, cs.len() as int));
                }
            },
        }
    }
    let last = label.substring_char(start, k);
    out.push(last);
    assert(pieces_view(out@) =~= split_lines(cs));
    out
}

/// Position of the first `ch` in `s`, or the length.
pub open spec fn char_pos(s: Seq<char>, ch: char, i: int) -> int
    decreases s.len() - i,
{
    if i >= s.len() {
        s.len() as int
    } else if s[i] == ch {
        i
    } else {
        char_pos(s, ch, i + 1)
    }
}

proof fn lemma_char_pos(s: Seq<char>, ch: char, i: int)
    requires
        0 <= i <= s.len(),
    ensures
        i <= char_pos(s, ch, i) <= s.len(),
        char_pos(s, ch, i) < s.len() ==> s[char_pos(s, ch, i)] == ch,
        forall|j: int| i <= j < char_pos(s, ch, i) ==> s[j] != ch,
    decreases s.len() - i,
{
    if i < s.len() && s[i] != ch {
        lemma_char_pos(s, ch, i + 1);
    }
}

/// The two lines drawn inside an instrument bubble: the two lines of a
/// two-line label, or a one-line tag split at its first dash; none when
/// there is no such split or either part is longer than six characters.
pub open spec fn bubble_text(label: Seq<char>) -> Option<(Seq<char>, Seq<char>)> {
    let parts = split_lines(label);
    let tb: Option<(Seq<char>, Seq<char>)> = if parts.len() == 1 {
        let p = parts[0];
        let d = char_pos(p, '-', 0);
        if d < p.len() {
            Some((p.subrange(0, d), p.subrange(d + 1, p.len() as int)))
        } else {
            None
        }
    } else if parts.len() == 2 {
        Some((parts[0], parts[1]))
    } else {
        None
    };
    match tb {
        Some(t) => if t.0.len() <= 6 && t.1.len() <= 6 {
            Some(t)
        } else {
            None
        },
        None => None,
    }
}

/// Two short lines to draw inside an instrument bubble: explicit newline
/// split, else split a "TT-101"-style tag at the dash. None when the text
/// wouldn't fit legibly in a small bubble.
pub fn bubble_lines(label: &str) -> (r: Option<(String, String)>)
    ensures
        match r {
            Some(t) => bubble_text(label@) == Some((t.0@, t.1@)),
            None => bubble_text(label@) is None,
        },
{
    let parts = label_lines(label);
    proof {
        lemma_split_lines_len(label@);
    }
    let (top, bottom) = if parts.len() == 1 {
        let one = parts[0];
        let ghost p = one@;
        let n = one.unicode_len();
        let mut d: usize = 0;
        proof {
            lemma_char_pos(p, '-', 0);
        }
        while d < n && one.get_char(d) != '-'
            invariant
                n == p.len(),
                d <= n,
                p == one@,
                char_pos(p, '-', 0) == char_pos(p, '-', d as int),
            decreases n - d,
        {
            d = d + 1;
        }
        if d >= n {
            return None;
        }
        (string_of(one.substring_char(0, d)), string_of(one.substring_char(d + 1, n)))
    } else if parts.len() == 2 {
        (string_of(parts[0]), string_of(parts[1]))
    } else {
        return None;
    };
    if top.as_str().unicode_len() <= 6 && bottom.as_str().unicode_len() <= 6 {
        Some((top, bottom))
    } else {
        None
    }
}

// ---- Styles ----

pub open spec fn style_sheet() -> Seq<char> {
    "
    .equipment { fill: white; stroke: black; stroke-width: 1.5; }
    .valve { fill: white; stroke: black; stroke-width: 1.5; }
    .instrument { fill: white; stroke: black; stroke-width: 1.5; }
    .junction { fill: black; stroke: none; }
    .label { font-family: sans-serif; font-size: 11px; text-anchor: middle; fill: #333; }
    .line-label { font-family: sans-serif; font-size: 9px; text-anchor: middle; fill: #666; }
    .note { font-family: sans-serif; font-size: 11px; fill: #555; font-style: italic; }
    .line-process { fill: none; stroke: black; stroke-width: 2; }
    .line-utility { fill: none; stroke: black; stroke-width: 1; stroke-dasharray: 14,5; }
    .line-drain { fill: none; stroke: black; stroke-width: 1; stroke-dasharray: 9,3,1.5,3; }
    .line-vent { fill: none; stroke: black; stroke-width: 1; stroke-dasharray: 1.5,4; stroke-linecap: round; }
    .line-attach { fill: none; stroke: black; stroke-width: 1; }
    .signal-electrical { fill: none; stroke: black; stroke-width: 1.5; stroke-dasharray: 6,3; }
    .signal-pneumatic { fill: none; stroke: black; stroke-width: 1.5; }
    .signal-hydraulic { fill: none; stroke: black; stroke-width: 1.5; stroke-dasharray: 10,2,1,2; }
    .signal-digital { fill: none; stroke: black; stroke-width: 1.5; stroke-dasharray: 6,2,1,2; }
"@
}

/// The CSS rules of the drawing. Line weights and dash patterns follow
/// ISO 10628-2 / ISA-5.1; all signal lines are black with type-specific
/// dash patterns.
pub fn build_styles(_indent: &str, _pretty: bool) -> (r: String)
    ensures
        r@ == style_sheet(),
{
    string_of(
        "
    .equipment { fill: white; stroke: black; stroke-width: 1.5; }
    .valve { fill: white; stroke: black; stroke-width: 1.5; }
    .instrument { fill: white; stroke: black; stroke-width: 1.5; }
    .junction { fill: black; stroke: none; }
    .label { font-family: sans-serif; font-size: 11px; text-anchor: middle; fill: #333; }
    .line-label { font-family: sans-serif; font-size: 9px; text-anchor: middle; fill: #666; }
    .note { font-family: sans-serif; font-size: 11px; fill: #555; font-style: italic; }
    .line-process { fill: none; stroke: black; stroke-width: 2; }
    .line-utility { fill: none; stroke: black; stroke-width: 1; stroke-dasharray: 14,5; }
    .line-drain { fill: none; stroke: black; stroke-width: 1; stroke-dasharray: 9,3,1.5,3; }
    .line-vent { fill: none; stroke: black; stroke-width: 1; stroke-dasharray: 1.5,4; stroke-linecap: round; }
    .line-attach { fill: none; stroke: black; stroke-width: 1; }
    .signal-electrical { fill: none; stroke: black; stroke-width: 1.5; stroke-dasharray: 6,3; }
    .signal-pneumatic { fill: none; stroke: black; stroke-width: 1.5; }
    .signal-hydraulic { fill: none; stroke: black; stroke-width: 1.5; stroke-dasharray: 10,2,1,2; }
    .signal-digital { fill: none; stroke: black; stroke-width: 1.5; stroke-dasharray: 6,2,1,2; }
",
    )
}

/// Presentation attributes matching the CSS rule of a line or signal class.
pub open spec fn presentation_of(css_class: Seq<char>) -> Seq<char> {
    if css_class == "line-process"@ {
        " fill=\"none\" stroke=\"black\" stroke-width=\"2\""@
    } else if css_class == "line-utility"@ {
        " fill=\"none\" stroke=\"black\" stroke-width=\"1\" stroke-dasharray=\"14,5\""@
    } else if css_class == "line-drain"@ {
        " fill=\"none\" stroke=\"black\" stroke-width=\"1\" stroke-dasharray=\"9,3,1.5,3\""@
    } else if css_class == "line-vent"@ {
        " fill=\"none\" stroke=\"black\" stroke-width=\"1\" stroke-dasharray=\"1.5,4\" stroke-linecap=\"round\""@
    } else if css_class == "line-attach"@ {
        " fill=\"none\" stroke=\"black\" stroke-width=\"1\""@
    } else if css_class == "signal-electrical"@ {
        " fill=\"none\" stroke=\"black\" stroke-width=\"1.5\" stroke-dasharray=\"6,3\""@
    } else if css_class == "signal-pneumatic"@ {
        " fill=\"none\" stroke=\"black\" stroke-width=\"1.5\""@
    } else if css_class == "signal-hydraulic"@ {
        " fill=\"none\" stroke=\"black\" stroke-width=\"1.5\" stroke-dasharray=\"10,2,1,2\""@
    } else if css_class == "signal-digital"@ {
        " fill=\"none\" stroke=\"black\" stroke-width=\"1.5\" stroke-dasharray=\"6,2,1,2\""@
    } else {
        " fill=\"none\" stroke=\"black\" stroke-width=\"1.5\""@
    }
}

/// Explicit SVG presentation attributes matching the CSS rule for a given
/// line/signal class, for viewers without CSS.
pub fn line_presentation_attrs(css_class: &str) -> (r: &'static str)
    ensures
        r@ == presentation_of(css_class@),
{
    let c = css_class;
    if str_eq(c, "line-process") {
        " fill=\"none\" stroke=\"black\" stroke-width=\"2\""
    } else if str_eq(c, "line-utility") {
        " fill=\"none\" stroke=\"black\" stroke-width=\"1\" stroke-dasharray=\"14,5\""
    } else if str_eq(c, "line-drain") {
        " fill=\"none\" stroke=\"black\" stroke-width=\"1\" stroke-dasharray=\"9,3,1.5,3\""
    } else if str_eq(c, "line-vent") {
        " fill=\"none\" stroke=\"black\" stroke-width=\"1\" stroke-dasharray=\"1.5,4\" stroke-linecap=\"round\""
    } else if str_eq(c, "line-attach") {
        " fill=\"none\" stroke=\"black\" stroke-width=\"1\""
    } else if str_eq(c, "signal-electrical") {
        " fill=\"none\" stroke=\"black\" stroke-width=\"1.5\" stroke-dasharray=\"6,3\""
    } else if str_eq(c, "signal-pneumatic") {
        " fill=\"none\" stroke=\"black\" stroke-width=\"1.5\""
    } else if str_eq(c, "signal-hydraulic") {
        " fill=\"none\" stroke=\"black\" stroke-width=\"1.5\" stroke-dasharray=\"10,2,1,2\""
    } else if str_eq(c, "signal-digital") {
        " fill=\"none\" stroke=\"black\" stroke-width=\"1.5\" stroke-dasharray=\"6,2,1,2\""
    } else {
        " fill=\"none\" stroke=\"black\" stroke-width=\"1.5\""
    }
}

// ---- Legend labels ----

pub open spec fn equipment_label_of(k: Seq<char>) -> Seq<char> {
    if k == "pump"@ {
        "Centrifugal pump"@
    } else if k == "pump_pd"@ {
        "Positive-displacement pump"@
    } else if k == "heat_exchanger"@ {
        "Heat exchanger"@
    } else if k == "vessel"@ {
        "Vessel / tank"@
    } else if k == "separator"@ {
        "Separator"@
    } else if k == "separator_3phase"@ {
        "Three-phase separator"@
    } else if k == "reactor_cstr"@ {
        "Stirred reactor (CSTR)"@
    } else if k == "reactor_pfr"@ {
        "Plug-flow reactor"@
    } else if k == "compressor"@ {
        "Compressor"@
    } else if k == "blower"@ {
        "Blower / fan"@
    } else if k == "mixer"@ {
        "Mixer"@
    } else if k == "column"@ {
        "Distillation column"@
    } else if k == "connector"@ {
        "Off-page connector"@
    } else if k == "heat_pad"@ {
        "Heat pad (electric)"@
    } else if k == "vacuum_pump"@ {
        "Vacuum pump"@
    } else if k == "canister"@ {
        "Feed canister"@
    } else if k == "motor"@ {
        "Motor / stirrer drive"@
    } else if k == "thermostat"@ {
        "Thermostat / packaged unit"@
    } else {
        "Equipment"@
    }
}

/// The legend text of an equipment symbol key.
pub fn equipment_key_label(key: &str) -> (r: &'static str)
    ensures
        r@ == equipment_label_of(key@),
{
    if str_eq(key, "pump") {
        "Centrifugal pump"
    } else if str_eq(key, "pump_pd") {
        "Positive-displacement pump"
    } else if str_eq(key, "heat_exchanger") {
        "Heat exchanger"
    } else if str_eq(key, "vessel") {
        "Vessel / tank"
    } else if str_eq(key, "separator") {
        "Separator"
    } else if str_eq(key, "separator_3phase") {
        "Three-phase separator"
    } else if str_eq(key, "reactor_cstr") {
        "Stirred reactor (CSTR)"
    } else if str_eq(key, "reactor_pfr") {
        "Plug-flow reactor"
    } else if str_eq(key, "compressor") {
        "Compressor"
    } else if str_eq(key, "blower") {
        "Blower / fan"
    } else if str_eq(key, "mixer") {
        "Mixer"
    } else if str_eq(key, "column") {
        "Distillation column"
    } else if str_eq(key, "connector") {
        "Off-page connector"
    } else if str_eq(key, "heat_pad") {
        "Heat pad (electric)"
    } else if str_eq(key, "vacuum_pump") {
        "Vacuum pump"
    } else if str_eq(key, "canister") {
        "Feed canister"
    } else if str_eq(key, "motor") {
        "Motor / stirrer drive"
    } else if str_eq(key, "thermostat") {
        "Thermostat / packaged unit"
    } else {
        "Equipment"
    }
}

pub open spec fn valve_label_of(k: Seq<char>) -> Seq<char> {
    if k == "control_valve"@ {
        "Control valve"@
    } else if k == "control_valve_diaphragm"@ {
        "Control valve (diaphragm)"@
    } else if k == "check_valve"@ {
        "Check valve"@
    } else if k == "relief_valve"@ {
        "Relief valve (PSV)"@
    } else if k == "valve_globe"@ {
        "Globe valve"@
    } else if k == "valve_needle"@ {
        "Needle valve"@
    } else if k == "valve_three_way"@ {
        "3-way valve"@
    } else if k == "valve_pcv"@ {
        "Pressure reducer (PCV)"@
    } else if k == "valve_solenoid"@ {
        "Solenoid valve"@
    } else if k == "bursting_disc"@ {
        "Bursting disc"@
    } else {
        "Manual valve"@
    }
}

/// The legend text of a valve symbol key.
pub fn valve_key_label(key: &str) -> (r: &'static str)
    ensures
        r@ == valve_label_of(key@),
{
    if str_eq(key, "control_valve") {
        "Control valve"
    } else if str_eq(key, "control_valve_diaphragm") {
        "Control valve (diaphragm)"
    } else if str_eq(key, "check_valve") {
        "Check valve"
    } else if str_eq(key, "relief_valve") {
        "Relief valve (PSV)"
    } else if str_eq(key, "valve_globe") {
        "Globe valve"
    } else if str_eq(key, "valve_needle") {
        "Needle valve"
    } else if str_eq(key, "valve_three_way") {
        "3-way valve"
    } else if str_eq(key, "valve_pcv") {
        "Pressure reducer (PCV)"
    } else if str_eq(key, "valve_solenoid") {
        "Solenoid valve"
    } else if str_eq(key, "bursting_disc") {
        "Bursting disc"
    } else {
        "Manual valve"
    }
}

pub open spec fn instrument_label_of(k: Seq<char>) -> Seq<char> {
    if k == "instr_panel"@ {
        "Panel instrument"@
    } else if k == "instr_control_room"@ {
        "Control-room instrument"@
    } else if k == "instr_shared"@ {
        "Shared display (DCS)"@
    } else {
        "Field instrument"@
    }
}

/// The legend text of an instrument symbol key.
pub fn instrument_key_label(key: &str) -> (r: &'static str)
    ensures
        r@ == instrument_label_of(key@),
{
    if str_eq(key, "instr_panel") {
        "Panel instrument"
    } else if str_eq(key, "instr_control_room") {
        "Control-room instrument"
    } else if str_eq(key, "instr_shared") {
        "Shared display (DCS)"
    } else {
        "Field instrument"
    }
}

pub open spec fn line_label_of(k: Seq<char>) -> Seq<char> {
    if k == "process"@ {
        "Process line"@
    } else if k == "utility"@ {
        "Utility line"@
    } else if k == "drain"@ {
        "Drain line"@
    } else if k == "vent"@ {
        "Vent line"@
    } else {
        "Line"@
    }
}

/// The legend text of a line class.
pub fn line_class_label(class: &str) -> (r: &'static str)
    ensures
        r@ == line_label_of(class@),
{
    if str_eq(class, "process") {
        "Process line"
    } else if str_eq(class, "utility") {
        "Utility line"
    } else if str_eq(class, "drain") {
        "Drain line"
    } else if str_eq(class, "vent") {
        "Vent line"
    } else {
        "Line"
    }
}

pub open spec fn signal_label_of(k: Seq<char>) -> Seq<char> {
    if k == "electrical"@ {
        "Electrical signal"@
    } else if k == "pneumatic"@ {
        "Pneumatic signal"@
    } else if k == "hydraulic"@ {
        "Hydraulic signal"@
    } else if k == "digital"@ {
        "Digital signal"@
    } else {
        "Signal"@
    }
}

/// The legend text of a signal type.
pub fn signal_type_label(sig: &str) -> (r: &'static str)
    ensures
        r@ == signal_label_of(sig@),
{
    if str_eq(sig, "electrical") {
        "Electrical signal"
    } else if str_eq(sig, "pneumatic") {
        "Pneumatic signal"
    } else if str_eq(sig, "hydraulic") {
        "Hydraulic signal"
    } else if str_eq(sig, "digital") {
        "Digital signal"
    } else {
        "Signal"
    }
}

// ---- CSS classes of connections ----

/// `line-<class>` for a known line, `line-process` otherwise.
pub open spec fn line_css_of(g: DiagramV, id: Seq<char>) -> Seq<char> {
    match lookup(g.lines, id) {
        Some(l) => "line-"@ + l.class,
        None => "line-process"@,
    }
}

pub fn line_class_for_id(id: &str, diagram: &Diagram) -> (r: String)
    requires
        diagram.wf(),
    ensures
        r@ == line_css_of(diagram@, id@),
{
    proof {
        diagram.lines.lemma_wf();
        lemma_entries_view(diagram.lines.entries(), id@);
    }
    if let Some(line) = diagram.lines.get(id) {
        let mut m = string_of("line-");
        push_str(&mut m, line.class.as_str());
        m
    } else {
        string_of("line-process")
    }
}

/// `signal-<type>` for a known signal, `signal-electrical` otherwise.
pub open spec fn signal_css_of(g: DiagramV, id: Seq<char>) -> Seq<char> {
    match lookup(g.signals, id) {
        Some(s) => "signal-"@ + s.sig_type,
        None => "signal-electrical"@,
    }
}

pub fn signal_class_for_id(id: &str, diagram: &Diagram) -> (r: String)
    requires
        diagram.wf(),
    ensures
        r@ == signal_css_of(diagram@, id@),
{
    proof {
        diagram.signals.lemma_wf();
        lemma_entries_view(diagram.signals.entries(), id@);
    }
    if let Some(sig) = diagram.signals.get(id) {
        let mut m = string_of("signal-");
        push_str(&mut m, sig.sig_type.as_str());
        m
    } else {
        string_of("signal-electrical")
    }
}

// ---- Data table ----

/// The keys of a list of key/value attributes.
pub open spec fn attr_keys(data: Seq<(String, String)>) -> Seq<Seq<char>> {
    data.map_values(|kv: (String, String)| kv.0@)
}

/// The keys of all items' attributes, item after item.
pub open spec fn all_attr_keys(items: Seq<(&str, &Vec<(String, String)>)>) -> Seq<Seq<char>>
    decreases items.len(),
{
    if items.len() == 0 {
        Seq::empty()
    } else {
        all_attr_keys(items.drop_last()) + attr_keys(items.last().1@)
    }
}

/// A sequence with later repeats dropped: each element at its first place.
pub open spec fn first_seen(s: Seq<Seq<char>>) -> Seq<Seq<char>>
    decreases s.len(),
{
    if s.len() == 0 {
        Seq::empty()
    } else {
        let r = first_seen(s.drop_last());
        if r.contains(s.last()) {
            r
        } else {
            r.push(s.last())
        }
    }
}

/// Whether `k` is one of `keys`.
fn has_key_str(keys: &Vec<String>, k: &String) -> (r: bool)
    ensures
        r == crate::ast::strings_view(keys@).contains(k@),
{
    let mut i: usize = 0;
    while i < keys.len()
        invariant
            i <= keys@.len(),
            forall|j: int| 0 <= j < i ==> keys@[j]@ != k@,
        decreases keys@.len() - i,
    {
        if str_eq(keys[i].as_str(), k.as_str()) {
            assert(crate::ast::strings_view(keys@)[i as int] == k@);
            return true;
        }
        i = i + 1;
    }
    proof {
        let v = crate::ast::strings_view(keys@);
        if v.contains(k@) {
            let j = choose|j: int| 0 <= j < v.len() && v[j] == k@;
            assert(keys@[j]@ == k@);
        }
    }
    false
}

/// Attribute keys across all table items, in first-seen order.
pub fn table_keys<'a>(items: &[(&'a str, &'a Vec<(String, String)>)]) -> (r: Vec<String>)
    ensures
        crate::ast::strings_view(r@) == first_seen(all_attr_keys(items@)),
{
    let mut keys: Vec<String> = Vec::new();
    let mut i: usize = 0;
    assert(items@.subrange(0, 0) =~= Seq::<(&str, &Vec<(String, String)>)>::empty());
    while i < items.len()
        invariant
            i <= items@.len(),
            crate::ast::strings_view(keys@) == first_seen(all_attr_keys(items@.subrange(0, i as int))),
        decreases items@.len() - i,
    {
        let data = items[i].1;
        let ghost base = all_attr_keys(items@.subrange(0, i as int));
        let mut j: usize = 0;
        assert(attr_keys(data@).subrange(0, 0) =~= Seq::<Seq<char>>::empty());
        assert(base + attr_keys(data@).subrange(0, 0) =~= base);
        while j < data.len()
            invariant
                j <= data@.len(),
                crate::ast::strings_view(keys@) == first_seen(base + attr_keys(data@).subrange(0, j as int)),
            decreases data@.len() - j,
        {
            let k = &data[j].0;
            let ghost pre = base + attr_keys(data@).subrange(0, j as int);
            let ghost post = base + attr_keys(data@).subrange(0, j + 1);
            assert(post.drop_last() =~= pre);
            assert(post.last() == k@);
            if !has_key_str(&keys, k) {
                keys.push(k.clone());
                assert(crate::ast::strings_view(keys@) =~= first_seen(pre).push(k@));
            }
            j = j + 1;
        }
        proof {
            let post = items@.subrange(0, i + 1);
            assert(post.drop_last() =~= items@.subrange(0, i as int));
            assert(attr_keys(data@).subrange(0, j as int) =~= attr_keys(data@));
            assert(all_attr_keys(post) == base + attr_keys(data@));
        }
        i = i + 1;
    }
    assert(items@.subrange(0, i as int) =~= items@);
    keys
}

/// Table keys come once each, and they are exactly the keys of the items.
pub proof fn lemma_first_seen(s: Seq<Seq<char>>)
    ensures
        forall|i: int, j: int|
            0 <= i < j < first_seen(s).len() ==> first_seen(s)[i] != first_seen(s)[j],
        forall|k: Seq<char>| first_seen(s).contains(k) <==> s.contains(k),
    decreases s.len(),
{
    if s.len() > 0 {
        let t = s.drop_last();
        lemma_first_seen(t);
        let r = first_seen(t);
        assert forall|k: Seq<char>| first_seen(s).contains(k) <==> s.contains(k) by {
            if s.contains(k) {
                let i = choose|i: int| 0 <= i < s.len() && s[i] == k;
                if i < t.len() {
                    assert(t[i] == k);
                    assert(t.contains(k));
                }
            }
            if t.contains(k) {
                let i = choose|i: int| 0 <= i < t.len() && t[i] == k;
                assert(s[i] == k);
            }
            if first_seen(s).contains(k) && !r.contains(k) {
                assert(s[s.len() - 1] == k);
            }
            if r.contains(k) && !r.contains(s.last()) {
                let i = choose|i: int| 0 <= i < r.len() && r[i] == k;
                assert(first_seen(s)[i] == k);
            }
            if k == s.last() && !r.contains(s.last()) {
                assert(first_seen(s)[r.len() as int] == k);
            }
        }
    }
}

// ---- Valve annotations ----

/// The tag drawn under a valve: `N.C.` / `N.O.` for the normal states `nc`
/// and `no`, any other state upper-cased; without a state, `FC` / `FO` /
/// `FL` for a valve that fails closed, open or in its last position.
pub open spec fn valve_tag_of(v: ValveV) -> Option<Seq<char>> {
    match v.state {
        Some(st) => if st == "nc"@ {
            Some("N.C."@)
        } else if st == "no"@ {
            Some("N.O."@)
        } else {
            Some(str_upper(st))
        },
        None => match v.fail {
            Some(f) => if f == "closed"@ {
                Some("FC"@)
            } else if f == "open"@ {
                Some("FO"@)
            } else if f == "last"@ {
                Some("FL"@)
            } else {
                None
            },
            None => None,
        },
    }
}

/// The state or fail-action tag of a valve.
pub fn valve_tag(v: &Valve) -> (r: Option<String>)
    ensures
        r matches Some(t) ==> valve_tag_of(v@) == Some(t@),
        r is None ==> valve_tag_of(v@) is None,
{
    match &v.state {
        Some(st) => {
            if str_eq(st.as_str(), "nc") {
                Some(string_of("N.C."))
            } else if str_eq(st.as_str(), "no") {
                Some(string_of("N.O."))
            } else {
                Some(upper_str(st.as_str()))
            }
        },
        None => match &v.fail {
            Some(f) => {
                if str_eq(f.as_str(), "closed") {
                    Some(string_of("FC"))
                } else if str_eq(f.as_str(), "open") {
                    Some(string_of("FO"))
                } else if str_eq(f.as_str(), "last") {
                    Some(string_of("FL"))
                } else {
                    None
                }
            },
            None => None,
        },
    }
}

/// The annotations written under a valve, in order: its tag, then its
/// setpoint.
pub open spec fn valve_notes_of(v: ValveV) -> Seq<Seq<char>> {
    (match valve_tag_of(v) {
        Some(t) => seq![t],
        None => Seq::empty(),
    }) + (match v.setpoint {
        Some(sp) => seq![sp],
        None => Seq::empty(),
    })
}

/// The annotations written under a valve: tag, then setpoint.
pub fn valve_annotations(v: &Valve) -> (r: Vec<String>)
    ensures
        r@.map_values(|s: String| s@) == valve_notes_of(v@),
{
    let mut out: Vec<String> = Vec::new();
    if let Some(t) = valve_tag(v) {
        out.push(t);
    }
    if let Some(sp) = &v.setpoint {
        out.push(sp.clone());
    }
    assert(out@.map_values(|s: String| s@) =~= valve_notes_of(v@));
    out
}

// ---- Legend contents ----

/// One legend row: a symbol or line style present in the diagram.
#[derive(Debug, Clone)]
pub enum LegendItem {
    /// An equipment symbol, with the first type that uses it.
    Equipment { key: &'static str, equip_type: String },
    /// The demister pad drawn inside three-phase separators.
    Demister,
    /// A valve symbol, with the first valve type and actuator that use it.
    Valve { key: &'static str, valve_type: String, actuator: Option<String> },
    /// An instrument bubble, with the first instrument that uses it.
    Instrument { key: &'static str, instr_type: String, location: Option<String> },
    Junction,
    LineClass { class: String },
    Flex,
    Insulation,
    SignalType { sig_type: String },
}

pub enum LegendItemV {
    Equipment { key: Seq<char>, equip_type: Seq<char> },
    Demister,
    Valve { key: Seq<char>, valve_type: Seq<char>, actuator: Option<Seq<char>> },
    Instrument { key: Seq<char>, instr_type: Seq<char>, location: Option<Seq<char>> },
    Junction,
    LineClass { class: Seq<char> },
    Flex,
    Insulation,
    SignalType { sig_type: Seq<char> },
}

impl View for LegendItem {
    type V = LegendItemV;

    open spec fn view(&self) -> LegendItemV {
        match self {
            LegendItem::Equipment { key, equip_type } => LegendItemV::Equipment {
                key: key@,
                equip_type: equip_type@,
            },
            LegendItem::Demister => LegendItemV::Demister,
            LegendItem::Valve { key, valve_type, actuator } => LegendItemV::Valve {
                key: key@,
                valve_type: valve_type@,
                actuator: ostr(*actuator),
            },
            LegendItem::Instrument { key, instr_type, location } => LegendItemV::Instrument {
                key: key@,
                instr_type: instr_type@,
                location: ostr(*location),
            },
            LegendItem::Junction => LegendItemV::Junction,
            LegendItem::LineClass { class } => LegendItemV::LineClass { class: class@ },
            LegendItem::Flex => LegendItemV::Flex,
            LegendItem::Insulation => LegendItemV::Insulation,
            LegendItem::SignalType { sig_type } => LegendItemV::SignalType { sig_type: sig_type@ },
        }
    }
}

pub open spec fn legend_items_view(v: Seq<LegendItem>) -> Seq<LegendItemV> {
    v.map_values(|x: LegendItem| x@)
}

/// Legend rows collected so far and the keys already shown.
pub struct LegendAcc {
    pub items: Seq<LegendItemV>,
    pub seen: Seq<Seq<char>>,
}

/// Adds a row for `key` unless a row for it is already there.
pub open spec fn legend_add(r: LegendAcc, key: Seq<char>, rows: Seq<LegendItemV>) -> LegendAcc {
    if r.seen.contains(key) {
        r
    } else {
        LegendAcc { items: r.items + rows, seen: r.seen.push(key) }
    }
}

/// The legend rows of a group of entries: for each entry whose key was not
/// shown yet, its rows.
pub open spec fn legend_group<T>(
    es: Seq<(Seq<char>, T)>,
    key: spec_fn(T) -> Seq<char>,
    rows: spec_fn(T) -> Seq<LegendItemV>,
) -> LegendAcc
    decreases es.len(),
{
    if es.len() == 0 {
        LegendAcc { items: Seq::empty(), seen: Seq::empty() }
    } else {
        legend_add(legend_group(es.drop_last(), key, rows), key(es.last().1), rows(es.last().1))
    }
}

pub open spec fn equipment_legend_key() -> spec_fn(EquipmentV) -> Seq<char> {
    |e: EquipmentV| equipment_key_of(e.equip_type)
}

pub open spec fn equipment_legend_rows() -> spec_fn(EquipmentV) -> Seq<LegendItemV> {
    |e: EquipmentV|
        {
            let k = equipment_key_of(e.equip_type);
            seq![LegendItemV::Equipment { key: k, equip_type: e.equip_type }] + if k
                == "separator_3phase"@ {
                seq![LegendItemV::Demister]
            } else {
                Seq::empty()
            }
        }
}

pub open spec fn valve_legend_key() -> spec_fn(ValveV) -> Seq<char> {
    |v: ValveV| valve_key_of(v.valve_type, v.actuator)
}

pub open spec fn valve_legend_rows() -> spec_fn(ValveV) -> Seq<LegendItemV> {
    |v: ValveV|
        seq![
            LegendItemV::Valve {
                key: valve_key_of(v.valve_type, v.actuator),
                valve_type: v.valve_type,
                actuator: v.actuator,
            },
        ]
}

pub open spec fn instrument_legend_key() -> spec_fn(InstrumentV) -> Seq<char> {
    |x: InstrumentV| instrument_key_of(x.location)
}

pub open spec fn instrument_legend_rows() -> spec_fn(InstrumentV) -> Seq<LegendItemV> {
    |x: InstrumentV|
        seq![
            LegendItemV::Instrument {
                key: instrument_key_of(x.location),
                instr_type: x.instr_type,
                location: x.location,
            },
        ]
}

pub open spec fn line_legend_key() -> spec_fn(LineV) -> Seq<char> {
    |l: LineV| l.class
}

pub open spec fn line_legend_rows() -> spec_fn(LineV) -> Seq<LegendItemV> {
    |l: LineV| seq![LegendItemV::LineClass { class: l.class }]
}

pub open spec fn signal_legend_key() -> spec_fn(SignalV) -> Seq<char> {
    |x: SignalV| x.sig_type
}

pub open spec fn signal_legend_rows() -> spec_fn(SignalV) -> Seq<LegendItemV> {
    |x: SignalV| seq![LegendItemV::SignalType { sig_type: x.sig_type }]
}

pub open spec fn legend_equipment(es: Seq<(Seq<char>, EquipmentV)>) -> LegendAcc {
    legend_group(es, equipment_legend_key(), equipment_legend_rows())
}

pub open spec fn legend_valves(vs: Seq<(Seq<char>, ValveV)>) -> LegendAcc {
    legend_group(vs, valve_legend_key(), valve_legend_rows())
}

pub open spec fn legend_instruments(xs: Seq<(Seq<char>, InstrumentV)>) -> LegendAcc {
    legend_group(xs, instrument_legend_key(), instrument_legend_rows())
}

pub open spec fn legend_lines(ls: Seq<(Seq<char>, LineV)>) -> LegendAcc {
    legend_group(ls, line_legend_key(), line_legend_rows())
}

pub open spec fn legend_signals(ss: Seq<(Seq<char>, SignalV)>) -> LegendAcc {
    legend_group(ss, signal_legend_key(), signal_legend_rows())
}

/// One legend row per distinct symbol and line style present in the
/// diagram, in a stable order: equipment, valves, instruments, junctions,
/// line classes, flexible tube, insulation, signal types.
pub open spec fn legend_of(g: DiagramV) -> Seq<LegendItemV> {
    legend_equipment(g.equipment).items + legend_valves(g.valves).items + legend_instruments(
        g.instruments,
    ).items + (if g.junctions.len() > 0 {
        seq![LegendItemV::Junction]
    } else {
        Seq::empty()
    }) + legend_lines(g.lines).items + (if exists|i: int|
        0 <= i < g.lines.len() && (#[trigger] g.lines[i]).1.flexible {
        seq![LegendItemV::Flex]
    } else {
        Seq::empty()
    }) + (if exists|i: int| 0 <= i < g.lines.len() && (#[trigger] g.lines[i]).1.insulated {
        seq![LegendItemV::Insulation]
    } else {
        Seq::empty()
    }) + legend_signals(g.signals).items
}

/// Adds the rows for `key` unless it was seen, keeping the seen keys.
fn add_rows(items: &mut Vec<LegendItem>, seen: &mut Vec<String>, key: &str, new_rows: Vec<LegendItem>)
    ensures
        ({
            let r = legend_add(
                LegendAcc { items: legend_items_view(old(items)@), seen: crate::ast::strings_view(old(seen)@) },
                key@,
                legend_items_view(new_rows@),
            );
            &&& legend_items_view(final(items)@) == r.items
            &&& crate::ast::strings_view(final(seen)@) == r.seen
        }),
{
    let k = string_of(key);
    if !has_key_str(seen, &k) {
        let ghost before = items@;
        let mut rows = new_rows;
        items.append(&mut rows);
        assert(legend_items_view(items@) =~= legend_items_view(before) + legend_items_view(new_rows@));
        let ghost s0 = crate::ast::strings_view(seen@);
        seen.push(k);
        assert(crate::ast::strings_view(seen@) =~= s0.push(key@));
    }
}


/// Legend rows of the equipment symbols, in order.
fn legend_rows_equipment(diagram: &Diagram, items: &mut Vec<LegendItem>)
    requires
        diagram.wf(),
    ensures
        legend_items_view(final(items)@) == legend_items_view(old(items)@) + legend_equipment(diagram@.equipment).items,
{
    let ghost g = diagram@;
    let ghost start = legend_items_view(items@);
    let vals = diagram.equipment.values();
    proof {
        diagram.equipment.lemma_wf();
        assert(g.equipment.subrange(0, 0) =~= Seq::<(Seq<char>, EquipmentV)>::empty());
        assert(start + Seq::<LegendItemV>::empty() =~= start);
    }
    let mut seen: Vec<String> = Vec::new();
    assert(crate::ast::strings_view(seen@) =~= Seq::<Seq<char>>::empty());
    let mut i: usize = 0;
    while i < vals.len()
        invariant
            g == diagram@,
            i <= vals@.len(),
            vals@.len() == g.equipment.len(),
            forall|j: int| 0 <= j < vals@.len() ==> #[trigger] g.equipment[j].1 == vals@[j]@,
            legend_items_view(items@) == start + legend_equipment(g.equipment.subrange(0, i as int)).items,
            crate::ast::strings_view(seen@) == legend_equipment(g.equipment.subrange(0, i as int)).seen,
        decreases vals@.len() - i,
    {
        let x = &vals[i];
        let ghost pre = g.equipment.subrange(0, i as int);
        let ghost post = g.equipment.subrange(0, i + 1);
        assert(post.drop_last() =~= pre);
        assert(post.last().1 == x@);
        let ghost mid = legend_items_view(items@);
        let key = equipment_symbol_key(x.equip_type.as_str());
        let mut rows: Vec<LegendItem> = Vec::new();
        rows.push(LegendItem::Equipment { key, equip_type: x.equip_type.clone() });
        if str_eq(key, "separator_3phase") {
            rows.push(LegendItem::Demister);
        }
        proof {
            let rv = legend_items_view(rows@);
            let want = seq![LegendItemV::Equipment { key: key@, equip_type: x@.equip_type }] + if key@ == "separator_3phase"@ {
                seq![LegendItemV::Demister]
            } else {
                Seq::empty()
            };
            assert(rv =~= want);
        }
        add_rows(items, &mut seen, key, rows);
        proof {
            let a = legend_equipment(pre);
            let b = legend_equipment(post);
            assert(legend_items_view(items@) =~= start + b.items);
        }
        i = i + 1;
    }
    assert(g.equipment.subrange(0, i as int) =~= g.equipment);
}

/// Legend rows of the valve symbols, in order.
fn legend_rows_valves(diagram: &Diagram, items: &mut Vec<LegendItem>)
    requires
        diagram.wf(),
    ensures
        legend_items_view(final(items)@) == legend_items_view(old(items)@) + legend_valves(diagram@.valves).items,
{
    let ghost g = diagram@;
    let ghost start = legend_items_view(items@);
    let vals = diagram.valves.values();
    proof {
        diagram.valves.lemma_wf();
        assert(g.valves.subrange(0, 0) =~= Seq::<(Seq<char>, ValveV)>::empty());
        assert(start + Seq::<LegendItemV>::empty() =~= start);
    }
    let mut seen: Vec<String> = Vec::new();
    assert(crate::ast::strings_view(seen@) =~= Seq::<Seq<char>>::empty());
    let mut i: usize = 0;
    while i < vals.len()
        invariant
            g == diagram@,
            i <= vals@.len(),
            vals@.len() == g.valves.len(),
            forall|j: int| 0 <= j < vals@.len() ==> #[trigger] g.valves[j].1 == vals@[j]@,
            legend_items_view(items@) == start + legend_valves(g.valves.subrange(0, i as int)).items,
            crate::ast::strings_view(seen@) == legend_valves(g.valves.subrange(0, i as int)).seen,
        decreases vals@.len() - i,
    {
        let x = &vals[i];
        let ghost pre = g.valves.subrange(0, i as int);
        let ghost post = g.valves.subrange(0, i + 1);
        assert(post.drop_last() =~= pre);
        assert(post.last().1 == x@);
        let ghost mid = legend_items_view(items@);
        let act: Option<&str> = match &x.actuator {
            Some(a) => Some(a.as_str()),
            None => None,
        };
        assert(ostr_slice(act) == x@.actuator);
        let key = valve_symbol_key(x.valve_type.as_str(), act);
        let rows = vec![
            LegendItem::Valve { key, valve_type: x.valve_type.clone(), actuator: x.actuator.clone() },
        ];
        assert(legend_items_view(rows@) =~= seq![
            LegendItemV::Valve { key: key@, valve_type: x@.valve_type, actuator: x@.actuator },
        ]);
        add_rows(items, &mut seen, key, rows);
        proof {
            let a = legend_valves(pre);
            let b = legend_valves(post);
            assert(legend_items_view(items@) =~= start + b.items);
        }
        i = i + 1;
    }
    assert(g.valves.subrange(0, i as int) =~= g.valves);
}

/// Legend rows of the instrument bubbles, in order.
fn legend_rows_instruments(diagram: &Diagram, items: &mut Vec<LegendItem>)
    requires
        diagram.wf(),
    ensures
        legend_items_view(final(items)@) == legend_items_view(old(items)@) + legend_instruments(diagram@.instruments).items,
{
    let ghost g = diagram@;
    let ghost start = legend_items_view(items@);
    let vals = diagram.instruments.values();
    proof {
        diagram.instruments.lemma_wf();
        assert(g.instruments.subrange(0, 0) =~= Seq::<(Seq<char>, InstrumentV)>::empty());
        assert(start + Seq::<LegendItemV>::empty() =~= start);
    }
    let mut seen: Vec<String> = Vec::new();
    assert(crate::ast::strings_view(seen@) =~= Seq::<Seq<char>>::empty());
    let mut i: usize = 0;
    while i < vals.len()
        invariant
            g == diagram@,
            i <= vals@.len(),
            vals@.len() == g.instruments.len(),
            forall|j: int| 0 <= j < vals@.len() ==> #[trigger] g.instruments[j].1 == vals@[j]@,
            legend_items_view(items@) == start + legend_instruments(g.instruments.subrange(0, i as int)).items,
            crate::ast::strings_view(seen@) == legend_instruments(g.instruments.subrange(0, i as int)).seen,
        decreases vals@.len() - i,
    {
        let x = &vals[i];
        let ghost pre = g.instruments.subrange(0, i as int);
        let ghost post = g.instruments.subrange(0, i + 1);
        assert(post.drop_last() =~= pre);
        assert(post.last().1 == x@);
        let ghost mid = legend_items_view(items@);
        let loc: Option<&str> = match &x.location {
            Some(a) => Some(a.as_str()),
            None => None,
        };
        assert(ostr_slice(loc) == x@.location);
        let key = instrument_symbol_key(loc);
        let rows = vec![
            LegendItem::Instrument {
                key,
                instr_type: x.instr_type.clone(),
                location: x.location.clone(),
            },
        ];
        assert(legend_items_view(rows@) =~= seq![
            LegendItemV::Instrument { key: key@, instr_type: x@.instr_type, location: x@.location },
        ]);
        add_rows(items, &mut seen, key, rows);
        proof {
            let a = legend_instruments(pre);
            let b = legend_instruments(post);
            assert(legend_items_view(items@) =~= start + b.items);
        }
        i = i + 1;
    }
    assert(g.instruments.subrange(0, i as int) =~= g.instruments);
}

/// Legend rows of the line classes, in order.
fn legend_rows_lines(diagram: &Diagram, items: &mut Vec<LegendItem>)
    requires
        diagram.wf(),
    ensures
        legend_items_view(final(items)@) == legend_items_view(old(items)@) + legend_lines(diagram@.lines).items,
{
    let ghost g = diagram@;
    let ghost start = legend_items_view(items@);
    let vals = diagram.lines.values();
    proof {
        diagram.lines.lemma_wf();
        assert(g.lines.subrange(0, 0) =~= Seq::<(Seq<char>, LineV)>::empty());
        assert(start + Seq::<LegendItemV>::empty() =~= start);
    }
    let mut seen: Vec<String> = Vec::new();
    assert(crate::ast::strings_view(seen@) =~= Seq::<Seq<char>>::empty());
    let mut i: usize = 0;
    while i < vals.len()
        invariant
            g == diagram@,
            i <= vals@.len(),
            vals@.len() == g.lines.len(),
            forall|j: int| 0 <= j < vals@.len() ==> #[trigger] g.lines[j].1 == vals@[j]@,
            legend_items_view(items@) == start + legend_lines(g.lines.subrange(0, i as int)).items,
            crate::ast::strings_view(seen@) == legend_lines(g.lines.subrange(0, i as int)).seen,
        decreases vals@.len() - i,
    {
        let x = &vals[i];
        let ghost pre = g.lines.subrange(0, i as int);
        let ghost post = g.lines.subrange(0, i + 1);
        assert(post.drop_last() =~= pre);
        assert(post.last().1 == x@);
        let ghost mid = legend_items_view(items@);
        let rows = vec![LegendItem::LineClass { class: x.class.clone() }];
        assert(legend_items_view(rows@) =~= seq![LegendItemV::LineClass { class: x@.class }]);
        add_rows(items, &mut seen, x.class.as_str(), rows);
        proof {
            let a = legend_lines(pre);
            let b = legend_lines(post);
            assert(legend_items_view(items@) =~= start + b.items);
        }
        i = i + 1;
    }
    assert(g.lines.subrange(0, i as int) =~= g.lines);
}

/// Legend rows of the signal types, in order.
fn legend_rows_signals(diagram: &Diagram, items: &mut Vec<LegendItem>)
    requires
        diagram.wf(),
    ensures
        legend_items_view(final(items)@) == legend_items_view(old(items)@) + legend_signals(diagram@.signals).items,
{
    let ghost g = diagram@;
    let ghost start = legend_items_view(items@);
    let vals = diagram.signals.values();
    proof {
        diagram.signals.lemma_wf();
        assert(g.signals.subrange(0, 0) =~= Seq::<(Seq<char>, SignalV)>::empty());
        assert(start + Seq::<LegendItemV>::empty() =~= start);
    }
    let mut seen: Vec<String> = Vec::new();
    assert(crate::ast::strings_view(seen@) =~= Seq::<Seq<char>>::empty());
    let mut i: usize = 0;
    while i < vals.len()
        invariant
            g == diagram@,
            i <= vals@.len(),
            vals@.len() == g.signals.len(),
            forall|j: int| 0 <= j < vals@.len() ==> #[trigger] g.signals[j].1 == vals@[j]@,
            legend_items_view(items@) == start + legend_signals(g.signals.subrange(0, i as int)).items,
            crate::ast::strings_view(seen@) == legend_signals(g.signals.subrange(0, i as int)).seen,
        decreases vals@.len() - i,
    {
        let x = &vals[i];
        let ghost pre = g.signals.subrange(0, i as int);
        let ghost post = g.signals.subrange(0, i + 1);
        assert(post.drop_last() =~= pre);
        assert(post.last().1 == x@);
        let ghost mid = legend_items_view(items@);
        let rows = vec![LegendItem::SignalType { sig_type: x.sig_type.clone() }];
        assert(legend_items_view(rows@) =~= seq![LegendItemV::SignalType { sig_type: x@.sig_type }]);
        add_rows(items, &mut seen, x.sig_type.as_str(), rows);
        proof {
            let a = legend_signals(pre);
            let b = legend_signals(post);
            assert(legend_items_view(items@) =~= start + b.items);
        }
        i = i + 1;
    }
    assert(g.signals.subrange(0, i as int) =~= g.signals);
}

/// Whether some line is flexible (`want_flex`) or insulated (otherwise).
fn any_line_flag(diagram: &Diagram, want_flex: bool) -> (r: bool)
    requires
        diagram.wf(),
    ensures
        want_flex ==> r == exists|i: int| 0 <= i < diagram@.lines.len() && (#[trigger] diagram@.lines[i]).1.flexible,
        !want_flex ==> r == exists|i: int| 0 <= i < diagram@.lines.len() && (#[trigger] diagram@.lines[i]).1.insulated,
{
    let ghost g = diagram@;
    let vals = diagram.lines.values();
    proof {
        diagram.lines.lemma_wf();
    }
    let mut i: usize = 0;
    while i < vals.len()
        invariant
            g == diagram@,
            i <= vals@.len(),
            vals@.len() == g.lines.len(),
            forall|j: int| 0 <= j < vals@.len() ==> #[trigger] g.lines[j].1 == vals@[j]@,
            want_flex ==> forall|j: int| 0 <= j < i ==> !(#[trigger] g.lines[j]).1.flexible,
            !want_flex ==> forall|j: int| 0 <= j < i ==> !(#[trigger] g.lines[j]).1.insulated,
        decreases vals@.len() - i,
    {
        let l = &vals[i];
        assert(g.lines[i as int].1 == l@);
        if (want_flex && l.flexible) || (!want_flex && l.insulated) {
            return true;
        }
        i = i + 1;
    }
    false
}

/// One legend row per distinct symbol / line style actually present in
/// the diagram, in a stable order: equipment, valves, instruments,
/// junctions, line classes, signal types.
pub fn build_legend_items(diagram: &Diagram) -> (r: Vec<LegendItem>)
    requires
        diagram.wf(),
    ensures
        legend_items_view(r@) == legend_of(diagram@),
{
    let mut items: Vec<LegendItem> = Vec::new();
    assert(legend_items_view(items@) =~= Seq::<LegendItemV>::empty());
    legend_rows_equipment(diagram, &mut items);
    legend_rows_valves(diagram, &mut items);
    legend_rows_instruments(diagram, &mut items);
    let ghost a = legend_items_view(items@);
    if !diagram.junctions.is_empty() {
        items.push(LegendItem::Junction);
    }
    assert(legend_items_view(items@) =~= a + (if diagram@.junctions.len() > 0 {
        seq![LegendItemV::Junction]
    } else {
        Seq::empty()
    }));
    legend_rows_lines(diagram, &mut items);
    let ghost b = legend_items_view(items@);
    if any_line_flag(diagram, true) {
        items.push(LegendItem::Flex);
    }
    let ghost c = legend_items_view(items@);
    if any_line_flag(diagram, false) {
        items.push(LegendItem::Insulation);
    }
    let ghost d = legend_items_view(items@);
    legend_rows_signals(diagram, &mut items);
    assert(legend_items_view(items@) =~= legend_of(diagram@));
    items
}

/// The text of a legend row.
pub open spec fn legend_text(item: LegendItemV) -> Seq<char> {
    match item {
        LegendItemV::Equipment { key, .. } => equipment_label_of(key),
        LegendItemV::Demister => "Demister pad"@,
        LegendItemV::Valve { key, .. } => valve_label_of(key),
        LegendItemV::Instrument { key, .. } => instrument_label_of(key),
        LegendItemV::Junction => "Junction / tee"@,
        LegendItemV::LineClass { class } => line_label_of(class),
        LegendItemV::Flex => "Flexible tube"@,
        LegendItemV::Insulation => "Insulation"@,
        LegendItemV::SignalType { sig_type } => signal_label_of(sig_type),
    }
}

/// The text of a legend row.
pub fn legend_label(item: &LegendItem) -> (r: &'static str)
    ensures
        r@ == legend_text(item@),
{
    match item {
        LegendItem::Equipment { key, .. } => equipment_key_label(key),
        LegendItem::Demister => "Demister pad",
        LegendItem::Valve { key, .. } => valve_key_label(key),
        LegendItem::Instrument { key, .. } => instrument_key_label(key),
        LegendItem::Junction => "Junction / tee",
        LegendItem::LineClass { class } => line_class_label(class.as_str()),
        LegendItem::Flex => "Flexible tube",
        LegendItem::Insulation => "Insulation",
        LegendItem::SignalType { sig_type } => signal_type_label(sig_type.as_str()),
    }
}

// ---- Laws of the legend ----

/// What a legend row shows: its kind and, where it has one, its key.
pub open spec fn row_style(it: LegendItemV) -> (int, Seq<char>) {
    match it {
        LegendItemV::Equipment { key, .. } => (0, key),
        LegendItemV::Demister => (1, Seq::empty()),
        LegendItemV::Valve { key, .. } => (2, key),
        LegendItemV::Instrument { key, .. } => (3, key),
        LegendItemV::Junction => (4, Seq::empty()),
        LegendItemV::LineClass { class } => (5, class),
        LegendItemV::Flex => (6, Seq::empty()),
        LegendItemV::Insulation => (7, Seq::empty()),
        LegendItemV::SignalType { sig_type } => (8, sig_type),
    }
}

/// Whether row `it` comes from entry `x`.
pub open spec fn row_of<T>(rows: spec_fn(T) -> Seq<LegendItemV>, x: T, it: LegendItemV) -> bool {
    exists|m: int| 0 <= m < rows(x).len() && #[trigger] rows(x)[m] == it
}

/// The keys shown by a group are exactly the keys of its entries.
proof fn lemma_group_seen<T>(
    es: Seq<(Seq<char>, T)>,
    key: spec_fn(T) -> Seq<char>,
    rows: spec_fn(T) -> Seq<LegendItemV>,
)
    ensures
        forall|k: Seq<char>|
            legend_group(es, key, rows).seen.contains(k) <==> exists|i: int|
                0 <= i < es.len() && key((#[trigger] es[i]).1) == k,
    decreases es.len(),
{
    if es.len() > 0 {
        let t = es.drop_last();
        lemma_group_seen(t, key, rows);
        let p = legend_group(t, key, rows);
        let r = legend_group(es, key, rows);
        let k = key(es.last().1);
        assert(r == legend_add(p, k, rows(es.last().1)));
        if p.seen.contains(k) {
            assert(r.seen == p.seen);
        } else {
            assert(r.seen == p.seen.push(k));
        }
        assert forall|i: int| 0 <= i < t.len() implies #[trigger] t[i] == es[i] by {}
        assert forall|kk: Seq<char>|
            r.seen.contains(kk) <==> exists|i: int| 0 <= i < es.len() && key((#[trigger] es[i]).1) == kk by {
            if exists|i: int| 0 <= i < es.len() && key((#[trigger] es[i]).1) == kk {
                let i = choose|i: int| 0 <= i < es.len() && key((#[trigger] es[i]).1) == kk;
                if i < t.len() {
                    assert(t[i] == es[i]);
                    assert(key(t[i].1) == kk);
                    assert(exists|i2: int| 0 <= i2 < t.len() && key((#[trigger] t[i2]).1) == kk);
                    assert(p.seen.contains(kk));
                    if !p.seen.contains(k) {
                        let q = choose|q: int| 0 <= q < p.seen.len() && p.seen[q] == kk;
                        assert(r.seen[q] == kk);
                    }
                } else if !p.seen.contains(k) {
                    assert(r.seen[p.seen.len() as int] == kk);
                }
            }
            if r.seen.contains(kk) {
                let q = choose|q: int| 0 <= q < r.seen.len() && r.seen[q] == kk;
                if q < p.seen.len() {
                    assert(p.seen[q] == kk);
                    assert(p.seen.contains(kk));
                    assert(exists|i: int| 0 <= i < t.len() && key((#[trigger] t[i]).1) == kk);
                    let i = choose|i: int| 0 <= i < t.len() && key((#[trigger] t[i]).1) == kk;
                    assert(es[i] == t[i]);
                } else {
                    assert(key(es[es.len() - 1].1) == kk);
                }
            }
        }
    }
}

/// Every row of a group comes from one of its entries.
proof fn lemma_group_sound<T>(
    es: Seq<(Seq<char>, T)>,
    key: spec_fn(T) -> Seq<char>,
    rows: spec_fn(T) -> Seq<LegendItemV>,
)
    ensures
        forall|j: int|
            0 <= j < legend_group(es, key, rows).items.len() ==> exists|i: int|
                0 <= i < es.len() && row_of(rows, es[i].1, #[trigger] legend_group(es, key, rows).items[j]),
    decreases es.len(),
{
    if es.len() > 0 {
        let t = es.drop_last();
        lemma_group_sound(t, key, rows);
        let p = legend_group(t, key, rows);
        let r = legend_group(es, key, rows);
        let x = es.last().1;
        assert(r == legend_add(p, key(x), rows(x)));
        if p.seen.contains(key(x)) {
            assert(r.items == p.items);
        } else {
            assert(r.items == p.items + rows(x));
        }
        assert forall|i: int| 0 <= i < t.len() implies #[trigger] t[i] == es[i] by {}
        assert forall|j: int| 0 <= j < r.items.len() implies exists|i: int|
            0 <= i < es.len() && row_of(rows, es[i].1, #[trigger] r.items[j]) by {
            if j < p.items.len() {
                assert(r.items[j] == p.items[j]);
                let i = choose|i: int| 0 <= i < t.len() && row_of(rows, t[i].1, #[trigger] p.items[j]);
                assert(es[i] == t[i]);
            } else {
                let m = j - p.items.len();
                assert(r.items[j] == rows(x)[m]);
                assert(row_of(rows, es[es.len() - 1].1, r.items[j]));
            }
        }
    }
}

/// For each key shown, the first row of an entry with that key is shown.
proof fn lemma_group_complete<T>(
    es: Seq<(Seq<char>, T)>,
    key: spec_fn(T) -> Seq<char>,
    rows: spec_fn(T) -> Seq<LegendItemV>,
)
    requires
        forall|x: T| (#[trigger] rows(x)).len() >= 1,
    ensures
        forall|k: Seq<char>|
            legend_group(es, key, rows).seen.contains(k) ==> exists|i0: int, j0: int|
                #![trigger es[i0], legend_group(es, key, rows).items[j0]]
                0 <= i0 < es.len() && 0 <= j0 && j0 + rows(es[i0].1).len()
                    <= legend_group(es, key, rows).items.len() && key(es[i0].1) == k
                    && legend_group(es, key, rows).items[j0] == rows(es[i0].1)[0]
                    && legend_group(es, key, rows).items.subrange(j0, j0 + rows(es[i0].1).len())
                    == rows(es[i0].1),
    decreases es.len(),
{
    if es.len() > 0 {
        let t = es.drop_last();
        lemma_group_complete(t, key, rows);
        let p = legend_group(t, key, rows);
        let r = legend_group(es, key, rows);
        let x = es.last().1;
        assert(r == legend_add(p, key(x), rows(x)));
        assert forall|i: int| 0 <= i < t.len() implies #[trigger] t[i] == es[i] by {}
        assert forall|k: Seq<char>| r.seen.contains(k) implies exists|i0: int, j0: int|
            #![trigger es[i0], r.items[j0]]
            0 <= i0 < es.len() && 0 <= j0 && j0 + rows(es[i0].1).len() <= r.items.len() && key(
                es[i0].1,
            ) == k && r.items[j0] == rows(es[i0].1)[0] && r.items.subrange(
                j0,
                j0 + rows(es[i0].1).len(),
            ) == rows(es[i0].1) by {
            if p.seen.contains(k) {
                let (i0, j0) = choose|i0: int, j0: int|
                    #![trigger t[i0], p.items[j0]]
                    0 <= i0 < t.len() && 0 <= j0 && j0 + rows(t[i0].1).len() <= p.items.len()
                        && key(t[i0].1) == k && p.items[j0] == rows(t[i0].1)[0] && p.items.subrange(
                        j0,
                        j0 + rows(t[i0].1).len(),
                    ) == rows(t[i0].1);
                assert(es[i0] == t[i0]);
                if !p.seen.contains(key(x)) {
                    assert(r.items == p.items + rows(x));
                }
                assert(r.items[j0] == p.items[j0]);
                assert(r.items.subrange(j0, j0 + rows(t[i0].1).len()) =~= p.items.subrange(
                    j0,
                    j0 + rows(t[i0].1).len(),
                ));
            } else {
                assert(!p.seen.contains(key(x)));
                assert(r.seen == p.seen.push(key(x)));
                let q = choose|q: int| 0 <= q < r.seen.len() && r.seen[q] == k;
                assert(q == p.seen.len());
                assert(k == key(x));
                assert(r.items == p.items + rows(x));
                assert(r.items[p.items.len() as int] == rows(x)[0]);
                assert(r.items.subrange(p.items.len() as int, (p.items.len() + rows(x).len()) as int) =~= rows(x));
                assert(es[es.len() - 1].1 == x);
            }
        }
    }
}

/// No two rows of a group show the same style, given that the rows of one
/// entry show different styles and entries with different keys show
/// different styles.
proof fn lemma_group_once<T>(
    es: Seq<(Seq<char>, T)>,
    key: spec_fn(T) -> Seq<char>,
    rows: spec_fn(T) -> Seq<LegendItemV>,
)
    requires
        forall|x: T, m: int, n: int|
            0 <= m < n < rows(x).len() ==> row_style(#[trigger] rows(x)[m]) != row_style(
                #[trigger] rows(x)[n],
            ),
        forall|x: T, y: T, m: int, n: int|
            0 <= m < rows(x).len() && 0 <= n < rows(y).len() && row_style(#[trigger] rows(x)[m])
                == row_style(#[trigger] rows(y)[n]) ==> key(x) == key(y),
    ensures
        forall|j1: int, j2: int|
            0 <= j1 < j2 < legend_group(es, key, rows).items.len() ==> row_style(
                #[trigger] legend_group(es, key, rows).items[j1],
            ) != row_style(#[trigger] legend_group(es, key, rows).items[j2]),
    decreases es.len(),
{
    if es.len() > 0 {
        let t = es.drop_last();
        lemma_group_once(t, key, rows);
        lemma_group_sound(t, key, rows);
        lemma_group_seen(t, key, rows);
        let p = legend_group(t, key, rows);
        let r = legend_group(es, key, rows);
        let x = es.last().1;
        let n = p.items.len();
        assert(r == legend_add(p, key(x), rows(x)));
        assert forall|i: int| 0 <= i < t.len() implies #[trigger] t[i] == es[i] by {}
        if p.seen.contains(key(x)) {
            assert(r.items == p.items);
        } else {
            assert(r.items == p.items + rows(x));
            assert forall|j1: int, j2: int|
                0 <= j1 < j2 < r.items.len() implies row_style(#[trigger] r.items[j1]) != row_style(
                    #[trigger] r.items[j2],
                ) by {
                if j2 < n {
                    assert(r.items[j1] == p.items[j1]);
                    assert(r.items[j2] == p.items[j2]);
                } else if j1 >= n {
                    assert(r.items[j1] == rows(x)[j1 - n]);
                    assert(r.items[j2] == rows(x)[j2 - n]);
                } else {
                    assert(r.items[j1] == p.items[j1]);
                    assert(r.items[j2] == rows(x)[j2 - n]);
                    let i = choose|i: int| 0 <= i < t.len() && row_of(rows, t[i].1, #[trigger] p.items[j1]);
                    let m = choose|m: int|
                        0 <= m < rows(t[i].1).len() && #[trigger] rows(t[i].1)[m] == p.items[j1];
                    if row_style(r.items[j1]) == row_style(r.items[j2]) {
                        assert(row_style(rows(t[i].1)[m]) == row_style(rows(x)[j2 - n]));
                        assert(key(t[i].1) == key(x));
                        assert(p.seen.contains(key(x)));
                    }
                }
            }
        }
    }
}

/// Whether a legend row stands for something that the diagram uses.
pub open spec fn legend_present(g: DiagramV, it: LegendItemV) -> bool {
    match it {
        LegendItemV::Equipment { key, equip_type } => exists|i: int|
            0 <= i < g.equipment.len() && (#[trigger] g.equipment[i]).1.equip_type == equip_type
                && key == equipment_key_of(equip_type),
        LegendItemV::Demister => exists|i: int|
            0 <= i < g.equipment.len() && equipment_key_of((#[trigger] g.equipment[i]).1.equip_type)
                == "separator_3phase"@,
        LegendItemV::Valve { key, valve_type, actuator } => exists|i: int|
            0 <= i < g.valves.len() && (#[trigger] g.valves[i]).1.valve_type == valve_type
                && g.valves[i].1.actuator == actuator && key == valve_key_of(valve_type, actuator),
        LegendItemV::Instrument { key, instr_type, location } => exists|i: int|
            0 <= i < g.instruments.len() && (#[trigger] g.instruments[i]).1.instr_type == instr_type
                && g.instruments[i].1.location == location && key == instrument_key_of(location),
        LegendItemV::Junction => g.junctions.len() > 0,
        LegendItemV::LineClass { class } => exists|i: int|
            0 <= i < g.lines.len() && (#[trigger] g.lines[i]).1.class == class,
        LegendItemV::Flex => exists|i: int| 0 <= i < g.lines.len() && (#[trigger] g.lines[i]).1.flexible,
        LegendItemV::Insulation => exists|i: int|
            0 <= i < g.lines.len() && (#[trigger] g.lines[i]).1.insulated,
        LegendItemV::SignalType { sig_type } => exists|i: int|
            0 <= i < g.signals.len() && (#[trigger] g.signals[i]).1.sig_type == sig_type,
    }
}

proof fn lemma_equipment_rows_present(g: DiagramV)
    ensures
        forall|j: int|
            0 <= j < legend_equipment(g.equipment).items.len() ==> legend_present(
                g,
                #[trigger] legend_equipment(g.equipment).items[j],
            ) && (row_style(legend_equipment(g.equipment).items[j]).0 == 0 || row_style(legend_equipment(g.equipment).items[j]).0 == 1),
{
    let es = g.equipment;
    let rows = equipment_legend_rows();
    lemma_group_sound(es, equipment_legend_key(), rows);
    let a = legend_equipment(es).items;
    assert forall|j: int| 0 <= j < a.len() implies legend_present(g, #[trigger] a[j]) && (row_style(a[j]).0 == 0 || row_style(a[j]).0 == 1) by {
        let i = choose|i: int| 0 <= i < es.len() && row_of(rows, es[i].1, #[trigger] a[j]);
        let m = choose|m: int| 0 <= m < rows(es[i].1).len() && #[trigger] rows(es[i].1)[m] == a[j];
        let e = es[i].1;
        let k = equipment_key_of(e.equip_type);
        if m == 0 {
            assert(a[j] == LegendItemV::Equipment { key: k, equip_type: e.equip_type });
        } else {
            assert(k == "separator_3phase"@);
            assert(a[j] == LegendItemV::Demister);
        }
    }
}

proof fn lemma_valve_rows_present(g: DiagramV)
    ensures
        forall|j: int|
            0 <= j < legend_valves(g.valves).items.len() ==> legend_present(
                g,
                #[trigger] legend_valves(g.valves).items[j],
            ) && row_style(legend_valves(g.valves).items[j]).0 == 2,
{
    let es = g.valves;
    let rows = valve_legend_rows();
    lemma_group_sound(es, valve_legend_key(), rows);
    let a = legend_valves(es).items;
    assert forall|j: int| 0 <= j < a.len() implies legend_present(g, #[trigger] a[j]) && row_style(a[j]).0 == 2 by {
        let i = choose|i: int| 0 <= i < es.len() && row_of(rows, es[i].1, #[trigger] a[j]);
        let m = choose|m: int| 0 <= m < rows(es[i].1).len() && #[trigger] rows(es[i].1)[m] == a[j];
        assert(m == 0);
    }
}

proof fn lemma_instrument_rows_present(g: DiagramV)
    ensures
        forall|j: int|
            0 <= j < legend_instruments(g.instruments).items.len() ==> legend_present(
                g,
                #[trigger] legend_instruments(g.instruments).items[j],
            ) && row_style(legend_instruments(g.instruments).items[j]).0 == 3,
{
    let es = g.instruments;
    let rows = instrument_legend_rows();
    lemma_group_sound(es, instrument_legend_key(), rows);
    let a = legend_instruments(es).items;
    assert forall|j: int| 0 <= j < a.len() implies legend_present(g, #[trigger] a[j]) && row_style(a[j]).0 == 3 by {
        let i = choose|i: int| 0 <= i < es.len() && row_of(rows, es[i].1, #[trigger] a[j]);
        let m = choose|m: int| 0 <= m < rows(es[i].1).len() && #[trigger] rows(es[i].1)[m] == a[j];
        assert(m == 0);
    }
}

proof fn lemma_line_rows_present(g: DiagramV)
    ensures
        forall|j: int|
            0 <= j < legend_lines(g.lines).items.len() ==> legend_present(
                g,
                #[trigger] legend_lines(g.lines).items[j],
            ) && row_style(legend_lines(g.lines).items[j]).0 == 5,
{
    let es = g.lines;
    let rows = line_legend_rows();
    lemma_group_sound(es, line_legend_key(), rows);
    let a = legend_lines(es).items;
    assert forall|j: int| 0 <= j < a.len() implies legend_present(g, #[trigger] a[j]) && row_style(a[j]).0 == 5 by {
        let i = choose|i: int| 0 <= i < es.len() && row_of(rows, es[i].1, #[trigger] a[j]);
        let m = choose|m: int| 0 <= m < rows(es[i].1).len() && #[trigger] rows(es[i].1)[m] == a[j];
        assert(m == 0);
    }
}

proof fn lemma_signal_rows_present(g: DiagramV)
    ensures
        forall|j: int|
            0 <= j < legend_signals(g.signals).items.len() ==> legend_present(
                g,
                #[trigger] legend_signals(g.signals).items[j],
            ) && row_style(legend_signals(g.signals).items[j]).0 == 8,
{
    let es = g.signals;
    let rows = signal_legend_rows();
    lemma_group_sound(es, signal_legend_key(), rows);
    let a = legend_signals(es).items;
    assert forall|j: int| 0 <= j < a.len() implies legend_present(g, #[trigger] a[j]) && row_style(a[j]).0 == 8 by {
        let i = choose|i: int| 0 <= i < es.len() && row_of(rows, es[i].1, #[trigger] a[j]);
        let m = choose|m: int| 0 <= m < rows(es[i].1).len() && #[trigger] rows(es[i].1)[m] == a[j];
        assert(m == 0);
    }
}

/// Unused symbols never appear in the legend: every row stands for an
/// equipment type, valve, instrument, junction, line class, line feature
/// or signal type that the diagram uses.
pub proof fn lemma_legend_shows_only_used_styles(g: DiagramV)
    ensures
        forall|j: int| 0 <= j < legend_of(g).len() ==> legend_present(g, #[trigger] legend_of(g)[j]),
{
    lemma_equipment_rows_present(g);
    lemma_valve_rows_present(g);
    lemma_instrument_rows_present(g);
    lemma_line_rows_present(g);
    lemma_signal_rows_present(g);
    let a = legend_equipment(g.equipment).items;
    let b = legend_valves(g.valves).items;
    let c = legend_instruments(g.instruments).items;
    let d: Seq<LegendItemV> = if g.junctions.len() > 0 { seq![LegendItemV::Junction] } else { Seq::empty() };
    let e = legend_lines(g.lines).items;
    let f: Seq<LegendItemV> = if exists|i: int| 0 <= i < g.lines.len() && (#[trigger] g.lines[i]).1.flexible {
        seq![LegendItemV::Flex]
    } else {
        Seq::empty()
    };
    let h: Seq<LegendItemV> = if exists|i: int| 0 <= i < g.lines.len() && (#[trigger] g.lines[i]).1.insulated {
        seq![LegendItemV::Insulation]
    } else {
        Seq::empty()
    };
    let s = legend_signals(g.signals).items;
    let l = legend_of(g);
    assert(l == a + b + c + d + e + f + h + s);
    assert forall|j: int| 0 <= j < l.len() implies legend_present(g, #[trigger] l[j]) by {
        let n1 = a.len() as int;
        let n2 = n1 + b.len();
        let n3 = n2 + c.len();
        let n4 = n3 + d.len();
        let n5 = n4 + e.len();
        let n6 = n5 + f.len();
        let n7 = n6 + h.len();
        if j < n1 {
            assert(l[j] == a[j]);
        } else if j < n2 {
            assert(l[j] == b[j - n1]);
        } else if j < n3 {
            assert(l[j] == c[j - n2]);
        } else if j < n4 {
            assert(l[j] == d[j - n3]);
        } else if j < n5 {
            assert(l[j] == e[j - n4]);
        } else if j < n6 {
            assert(l[j] == f[j - n5]);
        } else if j < n7 {
            assert(l[j] == h[j - n6]);
        } else {
            assert(l[j] == s[j - n7]);
        }
    }
}

/// Each key of a group's entries is shown by all rows of an entry with
/// that key.
proof fn lemma_group_shows<T>(
    es: Seq<(Seq<char>, T)>,
    key: spec_fn(T) -> Seq<char>,
    rows: spec_fn(T) -> Seq<LegendItemV>,
    i: int,
)
    requires
        forall|x: T| (#[trigger] rows(x)).len() >= 1,
        0 <= i < es.len(),
    ensures
        exists|i0: int, j0: int|
            #![trigger es[i0], legend_group(es, key, rows).items[j0]]
            0 <= i0 < es.len() && 0 <= j0 && j0 + rows(es[i0].1).len()
                <= legend_group(es, key, rows).items.len() && key(es[i0].1) == key(es[i].1)
                && legend_group(es, key, rows).items[j0] == rows(es[i0].1)[0]
                && legend_group(es, key, rows).items.subrange(j0, j0 + rows(es[i0].1).len())
                == rows(es[i0].1),
{
    lemma_group_seen(es, key, rows);
    lemma_group_complete(es, key, rows);
    assert(legend_group(es, key, rows).seen.contains(key(es[i].1)));
}

/// Every style that the diagram uses is shown in the legend: each
/// equipment, valve and instrument symbol key, the demister of a
/// three-phase separator, junctions, each line class, flexible and
/// insulated lines, and each signal type.
pub proof fn lemma_legend_shows_every_used_style(g: DiagramV)
    ensures
        forall|i: int|
            0 <= i < g.equipment.len() ==> exists|j: int|
                0 <= j < legend_of(g).len() && row_style(legend_of(g)[j]) == (
                    0int,
                    equipment_key_of((#[trigger] g.equipment[i]).1.equip_type),
                ),
        forall|i: int|
            0 <= i < g.equipment.len() && equipment_key_of((#[trigger] g.equipment[i]).1.equip_type)
                == "separator_3phase"@ ==> exists|j: int|
                0 <= j < legend_of(g).len() && legend_of(g)[j] == LegendItemV::Demister,
        forall|i: int|
            0 <= i < g.valves.len() ==> exists|j: int|
                0 <= j < legend_of(g).len() && row_style(legend_of(g)[j]) == (
                    2int,
                    valve_key_of((#[trigger] g.valves[i]).1.valve_type, g.valves[i].1.actuator),
                ),
        forall|i: int|
            0 <= i < g.instruments.len() ==> exists|j: int|
                0 <= j < legend_of(g).len() && row_style(legend_of(g)[j]) == (
                    3int,
                    instrument_key_of((#[trigger] g.instruments[i]).1.location),
                ),
        g.junctions.len() > 0 ==> exists|j: int|
            0 <= j < legend_of(g).len() && legend_of(g)[j] == LegendItemV::Junction,
        forall|i: int|
            0 <= i < g.lines.len() ==> exists|j: int|
                0 <= j < legend_of(g).len() && legend_of(g)[j] == (LegendItemV::LineClass {
                    class: (#[trigger] g.lines[i]).1.class,
                }),
        (exists|i: int| 0 <= i < g.lines.len() && (#[trigger] g.lines[i]).1.flexible) ==> exists|j: int|
            0 <= j < legend_of(g).len() && legend_of(g)[j] == LegendItemV::Flex,
        (exists|i: int| 0 <= i < g.lines.len() && (#[trigger] g.lines[i]).1.insulated) ==> exists|j: int|
            0 <= j < legend_of(g).len() && legend_of(g)[j] == LegendItemV::Insulation,
        forall|i: int|
            0 <= i < g.signals.len() ==> exists|j: int|
                0 <= j < legend_of(g).len() && legend_of(g)[j] == (LegendItemV::SignalType {
                    sig_type: (#[trigger] g.signals[i]).1.sig_type,
                }),
{
    let a = legend_equipment(g.equipment).items;
    let b = legend_valves(g.valves).items;
    let c = legend_instruments(g.instruments).items;
    let d: Seq<LegendItemV> = if g.junctions.len() > 0 { seq![LegendItemV::Junction] } else { Seq::empty() };
    let e = legend_lines(g.lines).items;
    let f: Seq<LegendItemV> = if exists|i: int| 0 <= i < g.lines.len() && (#[trigger] g.lines[i]).1.flexible {
        seq![LegendItemV::Flex]
    } else {
        Seq::empty()
    };
    let h: Seq<LegendItemV> = if exists|i: int| 0 <= i < g.lines.len() && (#[trigger] g.lines[i]).1.insulated {
        seq![LegendItemV::Insulation]
    } else {
        Seq::empty()
    };
    let s = legend_signals(g.signals).items;
    let l = legend_of(g);
    assert(l == a + b + c + d + e + f + h + s);
    let n1 = a.len() as int;
    let n2 = n1 + b.len();
    let n3 = n2 + c.len();
    let n4 = n3 + d.len();
    let n5 = n4 + e.len();
    let n6 = n5 + f.len();
    let n7 = n6 + h.len();
    assert forall|i: int| 0 <= i < g.equipment.len() implies exists|j: int|
        0 <= j < l.len() && row_style(l[j]) == (0int, equipment_key_of((#[trigger] g.equipment[i]).1.equip_type))
        && (equipment_key_of(g.equipment[i].1.equip_type) == "separator_3phase"@ ==> j + 1 < l.len()
            && l[j + 1] == LegendItemV::Demister) by {
        let rows = equipment_legend_rows();
        lemma_group_shows(g.equipment, equipment_legend_key(), rows, i);
        let (i0, j0) = choose|i0: int, j0: int|
            #![trigger g.equipment[i0], a[j0]]
            0 <= i0 < g.equipment.len() && 0 <= j0 && j0 + rows(g.equipment[i0].1).len() <= a.len()
                && equipment_legend_key()(g.equipment[i0].1) == equipment_legend_key()(g.equipment[i].1)
                && a[j0] == rows(g.equipment[i0].1)[0] && a.subrange(j0, j0 + rows(g.equipment[i0].1).len())
                == rows(g.equipment[i0].1);
        assert(l[j0] == a[j0]);
        let x0 = g.equipment[i0].1;
        let k0 = equipment_key_of(x0.equip_type);
        assert(k0 == equipment_key_of(g.equipment[i].1.equip_type));
        assert(rows(x0)[0] == LegendItemV::Equipment { key: k0, equip_type: x0.equip_type });
        assert(row_style(l[j0]) == (0int, equipment_key_of(g.equipment[i].1.equip_type)));
        if equipment_key_of(g.equipment[i].1.equip_type) == "separator_3phase"@ {
            assert(rows(x0) == seq![LegendItemV::Equipment { key: k0, equip_type: x0.equip_type }] + seq![LegendItemV::Demister]);
            assert(rows(x0).len() == 2);
            assert(a.subrange(j0, j0 + 2) == rows(x0));
            assert(a[j0 + 1] == a.subrange(j0, j0 + 2)[1]);
            assert(l[j0 + 1] == a[j0 + 1]);
            assert(l[j0 + 1] == LegendItemV::Demister);
        }
    }
    assert forall|i: int| 0 <= i < g.valves.len() implies exists|j: int|
        0 <= j < l.len() && row_style(l[j]) == (
            2int,
            valve_key_of((#[trigger] g.valves[i]).1.valve_type, g.valves[i].1.actuator),
        ) by {
        let rows = valve_legend_rows();
        lemma_group_shows(g.valves, valve_legend_key(), rows, i);
        let (i0, j0) = choose|i0: int, j0: int|
            #![trigger g.valves[i0], b[j0]]
            0 <= i0 < g.valves.len() && 0 <= j0 && j0 + rows(g.valves[i0].1).len() <= b.len()
                && valve_legend_key()(g.valves[i0].1) == valve_legend_key()(g.valves[i].1)
                && b[j0] == rows(g.valves[i0].1)[0] && b.subrange(j0, j0 + rows(g.valves[i0].1).len())
                == rows(g.valves[i0].1);
        assert(l[n1 + j0] == b[j0]);
    }
    assert forall|i: int| 0 <= i < g.instruments.len() implies exists|j: int|
        0 <= j < l.len() && row_style(l[j]) == (
            3int,
            instrument_key_of((#[trigger] g.instruments[i]).1.location),
        ) by {
        let rows = instrument_legend_rows();
        lemma_group_shows(g.instruments, instrument_legend_key(), rows, i);
        let (i0, j0) = choose|i0: int, j0: int|
            #![trigger g.instruments[i0], c[j0]]
            0 <= i0 < g.instruments.len() && 0 <= j0 && j0 + rows(g.instruments[i0].1).len() <= c.len()
                && instrument_legend_key()(g.instruments[i0].1) == instrument_legend_key()(
                g.instruments[i].1,
            ) && c[j0] == rows(g.instruments[i0].1)[0] && c.subrange(
                j0,
                j0 + rows(g.instruments[i0].1).len(),
            ) == rows(g.instruments[i0].1);
        assert(l[n2 + j0] == c[j0]);
    }
    if g.junctions.len() > 0 {
        assert(l[n3] == d[0]);
    }
    assert forall|i: int| 0 <= i < g.lines.len() implies exists|j: int|
        0 <= j < l.len() && l[j] == LegendItemV::LineClass { class: (#[trigger] g.lines[i]).1.class } by {
        let rows = line_legend_rows();
        lemma_group_shows(g.lines, line_legend_key(), rows, i);
        let (i0, j0) = choose|i0: int, j0: int|
            #![trigger g.lines[i0], e[j0]]
            0 <= i0 < g.lines.len() && 0 <= j0 && j0 + rows(g.lines[i0].1).len() <= e.len()
                && line_legend_key()(g.lines[i0].1) == line_legend_key()(g.lines[i].1) && e[j0] == rows(
                g.lines[i0].1,
            )[0] && e.subrange(j0, j0 + rows(g.lines[i0].1).len()) == rows(g.lines[i0].1);
        assert(l[n4 + j0] == e[j0]);
    }
    if exists|i: int| 0 <= i < g.lines.len() && (#[trigger] g.lines[i]).1.flexible {
        assert(l[n5] == f[0]);
    }
    if exists|i: int| 0 <= i < g.lines.len() && (#[trigger] g.lines[i]).1.insulated {
        assert(l[n6] == h[0]);
    }
    assert forall|i: int| 0 <= i < g.signals.len() implies exists|j: int|
        0 <= j < l.len() && l[j] == LegendItemV::SignalType { sig_type: (#[trigger] g.signals[i]).1.sig_type } by {
        let rows = signal_legend_rows();
        lemma_group_shows(g.signals, signal_legend_key(), rows, i);
        let (i0, j0) = choose|i0: int, j0: int|
            #![trigger g.signals[i0], s[j0]]
            0 <= i0 < g.signals.len() && 0 <= j0 && j0 + rows(g.signals[i0].1).len() <= s.len()
                && signal_legend_key()(g.signals[i0].1) == signal_legend_key()(g.signals[i].1)
                && s[j0] == rows(g.signals[i0].1)[0] && s.subrange(
                j0,
                j0 + rows(g.signals[i0].1).len(),
            ) == rows(g.signals[i0].1);
        assert(l[n7 + j0] == s[j0]);
    }
}

/// No style is shown twice in the legend.
pub proof fn lemma_legend_shows_each_style_once(g: DiagramV)
    ensures
        forall|j1: int, j2: int|
            0 <= j1 < j2 < legend_of(g).len() ==> row_style(#[trigger] legend_of(g)[j1]) != row_style(
                #[trigger] legend_of(g)[j2],
            ),
{
    let er = equipment_legend_rows();
    let ek = equipment_legend_key();
    assert forall|x: EquipmentV, m: int, n: int|
        0 <= m < n < er(x).len() implies row_style(#[trigger] er(x)[m]) != row_style(#[trigger] er(x)[n]) by {
        assert(m == 0 && n == 1);
    }
    assert forall|x: EquipmentV, y: EquipmentV, m: int, n: int|
        0 <= m < er(x).len() && 0 <= n < er(y).len() && row_style(#[trigger] er(x)[m]) == row_style(
            #[trigger] er(y)[n],
        ) implies ek(x) == ek(y) by {
        if m == 1 {
            assert(n == 1);
        }
        if n == 1 {
            assert(m == 1);
        }
    }
    lemma_group_once(g.equipment, ek, er);
    lemma_group_once(g.valves, valve_legend_key(), valve_legend_rows());
    lemma_group_once(g.instruments, instrument_legend_key(), instrument_legend_rows());
    lemma_group_once(g.lines, line_legend_key(), line_legend_rows());
    lemma_group_once(g.signals, signal_legend_key(), signal_legend_rows());
    lemma_equipment_rows_present(g);
    lemma_valve_rows_present(g);
    lemma_instrument_rows_present(g);
    lemma_line_rows_present(g);
    lemma_signal_rows_present(g);
    let a = legend_equipment(g.equipment).items;
    let b = legend_valves(g.valves).items;
    let c = legend_instruments(g.instruments).items;
    let d: Seq<LegendItemV> = if g.junctions.len() > 0 { seq![LegendItemV::Junction] } else { Seq::empty() };
    let e = legend_lines(g.lines).items;
    let f: Seq<LegendItemV> = if exists|i: int| 0 <= i < g.lines.len() && (#[trigger] g.lines[i]).1.flexible {
        seq![LegendItemV::Flex]
    } else {
        Seq::empty()
    };
    let h: Seq<LegendItemV> = if exists|i: int| 0 <= i < g.lines.len() && (#[trigger] g.lines[i]).1.insulated {
        seq![LegendItemV::Insulation]
    } else {
        Seq::empty()
    };
    let s = legend_signals(g.signals).items;
    let l = legend_of(g);
    assert(l == a + b + c + d + e + f + h + s);
    let n1 = a.len() as int;
    let n2 = n1 + b.len();
    let n3 = n2 + c.len();
    let n4 = n3 + d.len();
    let n5 = n4 + e.len();
    let n6 = n5 + f.len();
    let n7 = n6 + h.len();
    // The kind of row at each position, by segment.
    assert forall|j: int| 0 <= j < l.len() implies ({
        let t = row_style(#[trigger] l[j]).0;
        &&& j < n1 ==> (t == 0 || t == 1) && l[j] == a[j]
        &&& n1 <= j < n2 ==> t == 2 && l[j] == b[j - n1]
        &&& n2 <= j < n3 ==> t == 3 && l[j] == c[j - n2]
        &&& n3 <= j < n4 ==> t == 4
        &&& n4 <= j < n5 ==> t == 5 && l[j] == e[j - n4]
        &&& n5 <= j < n6 ==> t == 6
        &&& n6 <= j < n7 ==> t == 7
        &&& n7 <= j ==> t == 8 && l[j] == s[j - n7]
    }) by {
        if j < n1 {
            assert(l[j] == a[j]);
        } else if j < n2 {
            assert(l[j] == b[j - n1]);
        } else if j < n3 {
            assert(l[j] == c[j - n2]);
        } else if j < n4 {
            assert(l[j] == d[j - n3]);
        } else if j < n5 {
            assert(l[j] == e[j - n4]);
        } else if j < n6 {
            assert(l[j] == f[j - n5]);
        } else if j < n7 {
            assert(l[j] == h[j - n6]);
        } else {
            assert(l[j] == s[j - n7]);
        }
    }
    assert forall|j1: int, j2: int| 0 <= j1 < j2 < l.len() implies row_style(#[trigger] l[j1]) != row_style(
        #[trigger] l[j2],
    ) by {
        if j2 < n1 {
            assert(row_style(a[j1]) != row_style(a[j2]));
        } else if n1 <= j1 && j2 < n2 {
            assert(row_style(b[j1 - n1]) != row_style(b[j2 - n1]));
        } else if n2 <= j1 && j2 < n3 {
            assert(row_style(c[j1 - n2]) != row_style(c[j2 - n2]));
        } else if n4 <= j1 && j2 < n5 {
            assert(row_style(e[j1 - n4]) != row_style(e[j2 - n4]));
        } else if n7 <= j1 {
            assert(row_style(s[j1 - n7]) != row_style(s[j2 - n7]));
        }
    }
}

// ---- Laws of escaping and label splitting ----

/// Escaped XML text holds no `<`, `>` or `"`, and text without `&`, `<`,
/// `>` and `"` is left as it is.
pub proof fn lemma_xml_escaping(s: Seq<char>)
    ensures
        forall|i: int| 0 <= i < xml_escaped(s).len() ==> {
            let c = #[trigger] xml_escaped(s)[i];
            c != '<' && c != '>' && c != '"'
        },
        (forall|i: int| 0 <= i < s.len() ==> {
            let c = #[trigger] s[i];
            c != '&' && c != '<' && c != '>' && c != '"'
        }) ==> xml_escaped(s) == s,
    decreases s.len(),
{
    reveal_strlit("&amp;");
    reveal_strlit("&lt;");
    reveal_strlit("&gt;");
    reveal_strlit("&quot;");
    if s.len() > 0 {
        lemma_xml_escaping(s.drop_last());
        let a = xml_escaped(s.drop_last());
        let b = xml_char(s.last());
        assert(xml_escaped(s) == a + b);
        assert forall|i: int| 0 <= i < xml_escaped(s).len() implies {
            let c = #[trigger] xml_escaped(s)[i];
            c != '<' && c != '>' && c != '"'
        } by {
            if i >= a.len() {
                assert(xml_escaped(s)[i] == b[i - a.len()]);
            } else {
                assert(xml_escaped(s)[i] == a[i]);
            }
        }
        if forall|i: int| 0 <= i < s.len() ==> {
            let c = #[trigger] s[i];
            c != '&' && c != '<' && c != '>' && c != '"'
        } {
            assert forall|i: int| 0 <= i < s.drop_last().len() implies {
                let c = #[trigger] s.drop_last()[i];
                c != '&' && c != '<' && c != '>' && c != '"'
            } by {
                assert(s.drop_last()[i] == s[i]);
            }
            assert(s[s.len() - 1] == s.last());
            assert(xml_escaped(s) =~= s);
        }
    }
}

/// A JSON string literal holds no control character, and text without `"`,
/// `\` and control characters is written between two quotes as it is.
pub proof fn lemma_json_quoting(s: Seq<char>)
    ensures
        forall|i: int| 0 <= i < json_text(s).len() ==> (#[trigger] json_text(s)[i]) as u32 >= 0x20,
        json_text(s)[0] == '"',
        json_text(s)[json_text(s).len() - 1] == '"',
        (forall|i: int| 0 <= i < s.len() ==> {
            let c = #[trigger] s[i];
            c != '"' && c != '\\' && c as u32 >= 0x20
        }) ==> json_text(s) == seq!['"'] + s + seq!['"'],
{
    lemma_json_body(s);
    let b = json_body(s);
    let t = json_text(s);
    assert(t == seq!['"'] + b + seq!['"']);
    assert forall|i: int| 0 <= i < t.len() implies (#[trigger] t[i]) as u32 >= 0x20 by {
        if 1 <= i < t.len() - 1 {
            assert(t[i] == b[i - 1]);
        }
    }
}

proof fn lemma_json_body(s: Seq<char>)
    ensures
        forall|i: int| 0 <= i < json_body(s).len() ==> (#[trigger] json_body(s)[i]) as u32 >= 0x20,
        (forall|i: int| 0 <= i < s.len() ==> {
            let c = #[trigger] s[i];
            c != '"' && c != '\\' && c as u32 >= 0x20
        }) ==> json_body(s) == s,
    decreases s.len(),
{
    if s.len() > 0 {
        lemma_json_body(s.drop_last());
        let a = json_body(s.drop_last());
        let c = s.last();
        let b = json_char(c);
        assert(json_body(s) == a + b);
        if (c as u32) < 0x20 {
            let h = (c as u32) / 16;
            let l = (c as u32) % 16;
            assert(h < 10);
            assert(hex_digit(h) as u32 >= 0x20);
            assert(hex_digit(l) as u32 >= 0x20);
        }
        assert forall|i: int| 0 <= i < json_body(s).len() implies (#[trigger] json_body(s)[i]) as u32 >= 0x20 by {
            if i >= a.len() {
                assert(json_body(s)[i] == b[i - a.len()]);
            } else {
                assert(json_body(s)[i] == a[i]);
            }
        }
        if forall|i: int| 0 <= i < s.len() ==> {
            let c = #[trigger] s[i];
            c != '"' && c != '\\' && c as u32 >= 0x20
        } {
            assert forall|i: int| 0 <= i < s.drop_last().len() implies {
                let c = #[trigger] s.drop_last()[i];
                c != '"' && c != '\\' && c as u32 >= 0x20
            } by {
                assert(s.drop_last()[i] == s[i]);
            }
            assert(s[s.len() - 1] == c);
            assert(json_body(s) =~= s);
        }
    }
}

/// Lines joined with newlines.
pub open spec fn join_lines(ps: Seq<Seq<char>>) -> Seq<char>
    decreases ps.len(),
{
    if ps.len() <= 1 {
        if ps.len() == 1 { ps[0] } else { Seq::empty() }
    } else {
        join_lines(ps.drop_last()) + seq!['\n'] + ps.last()
    }
}

/// Splitting a label into lines loses nothing: no line holds a newline, and
/// joining the lines with newlines gives the label back.
pub proof fn lemma_label_lines_rejoin(s: Seq<char>)
    ensures
        join_lines(split_lines(s)) == s,
        forall|i: int, j: int|
            0 <= i < split_lines(s).len() && 0 <= j < split_lines(s)[i].len() ==> #[trigger] split_lines(s)[i][j]
                != '\n',
    decreases s.len(),
{
    lemma_split_lines_len(s);
    if s.len() > 0 {
        let r = split_lines(s.drop_last());
        lemma_label_lines_rejoin(s.drop_last());
        lemma_split_lines_len(s.drop_last());
        let c = s.last();
        if c == '\n' {
            let t = r.push(Seq::empty());
            assert(t.drop_last() =~= r);
            assert(join_lines(t) =~= s);
            assert forall|i: int, j: int|
                0 <= i < t.len() && 0 <= j < t[i].len() implies #[trigger] t[i][j] != '\n' by {
                assert(i < r.len());
                assert(t[i] == r[i]);
            }
        } else {
            let t = r.update(r.len() - 1, r.last().push(c));
            if r.len() == 1 {
                assert(join_lines(t) == t[0]);
                assert(join_lines(r) == r[0]);
                assert(t[0] == r[0].push(c));
                assert(s =~= s.drop_last().push(c));
                assert(join_lines(t) =~= s);
            } else {
                assert(t.drop_last() =~= r.drop_last());
                assert(join_lines(t) == join_lines(r.drop_last()) + seq!['\n'] + r.last().push(c));
                assert(join_lines(r) == join_lines(r.drop_last()) + seq!['\n'] + r.last());
                assert(s =~= s.drop_last().push(c));
                assert(join_lines(t) =~= s);
            }
            assert forall|i: int, j: int|
                0 <= i < t.len() && 0 <= j < t[i].len() implies #[trigger] t[i][j] != '\n' by {
                if i < r.len() - 1 {
                    assert(t[i] == r[i]);
                } else if j < r.last().len() {
                    assert(t[i][j] == r[r.len() - 1][j]);
                }
            }
        }
    }
}

/// The two lines in an instrument bubble give back the label: they are its
/// two lines, or the parts of a one-line label before and after its first
/// dash; neither is longer than six characters.
pub proof fn lemma_bubble_lines_rebuild_label(label: Seq<char>)
    ensures
        bubble_text(label) matches Some(t) ==> t.0.len() <= 6 && t.1.len() <= 6 && (label == t.0 + seq!['\n'] + t.1
            || (label == t.0 + seq!['-'] + t.1 && !t.0.contains('-') && !label.contains('\n'))),
{
    let parts = split_lines(label);
    lemma_label_lines_rejoin(label);
    lemma_split_lines_len(label);
    if let Some(t) = bubble_text(label) {
        if parts.len() == 1 {
            let p = parts[0];
            lemma_char_pos(p, '-', 0);
            let d = char_pos(p, '-', 0);
            assert(label == p);
            assert(p =~= p.subrange(0, d) + seq!['-'] + p.subrange(d + 1, p.len() as int));
            if p.subrange(0, d).contains('-') {
                let j = choose|j: int| 0 <= j < p.subrange(0, d).len() && p.subrange(0, d)[j] == '-';
                assert(p[j] == '-');
            }
            if label.contains('\n') {
                let j = choose|j: int| 0 <= j < label.len() && label[j] == '\n';
                assert(parts[0][j] == '\n');
            }
        } else {
            assert(parts.len() == 2);
            assert(parts.drop_last().len() == 1);
            assert(join_lines(parts.drop_last()) == parts[0]);
        }
    }
}

/// A valve's state, when it has one, is its tag whatever its fail action;
/// without a state, failing closed, open or in place reads `FC`, `FO` and
/// `FL`. The annotations are the tag, when there is one, then the setpoint.
pub proof fn lemma_valve_tags(v: ValveV)
    ensures
        v.state is Some ==> valve_tag_of(v) is Some && valve_tag_of(v) == valve_tag_of(ValveV { fail: None, ..v }),
        v.state is None && v.fail == Some("closed"@) ==> valve_tag_of(v) == Some("FC"@),
        v.state is None && v.fail == Some("open"@) ==> valve_tag_of(v) == Some("FO"@),
        v.state is None && v.fail == Some("last"@) ==> valve_tag_of(v) == Some("FL"@),
        v.state is None && v.fail is None ==> valve_tag_of(v) is None,
        valve_notes_of(v).len() == (if valve_tag_of(v) is Some { 1int } else { 0int }) + (if v.setpoint is Some { 1int } else { 0int }),
        valve_tag_of(v) matches Some(t) ==> valve_notes_of(v)[0] == t,
        v.setpoint matches Some(sp) ==> valve_notes_of(v).last() == sp,
{
    reveal_strlit("closed");
    reveal_strlit("open");
    reveal_strlit("last");
    assert("closed"@.len() != "open"@.len());
    assert("closed"@.len() != "last"@.len());
    assert("open"@[0] != "last"@[0]);
}

} // verus!
