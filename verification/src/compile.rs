//! The front half of the compile pipeline: lex, parse, normalize, validate.

use vstd::prelude::*;
use crate::ast::Document;
use crate::diag::{DiagEngine, DiagV};
use crate::lexer::{
    lemma_lex_lines_len, lemma_lex_reports_each_line, lemma_line_start_nonneg, lemma_next_nl, lemma_unclosed_quote_fails_the_line, lex,
    lex_from, line_end, line_start, next_nl, spec_lex, tspan,
};
use crate::diag::{Severity, dg};
use crate::text::{at_boundary, lemma_boundary, lemma_decode_bytes};
use vstd::utf8::*;
use crate::model::{Diagram, DiagramV};
use crate::normalize::{norm_seq, normalize};
use crate::parser::{parse, spec_parse};
use crate::text::bytes_of;
use crate::validate::{has_error, lemma_has_error_concat, validate, validation_diags};

verus! {

/// The declarations that a source parses into.
pub open spec fn source_decls(source: Seq<char>) -> Seq<crate::ast::DeclV> {
    spec_parse(spec_lex(source).lines).decls
}

/// The diagram that a source normalizes into.
pub open spec fn source_diagram(source: Seq<char>) -> DiagramV {
    norm_seq(source_decls(source)).diagram
}

/// Every diagnostic of the front half, in pipeline order.
pub open spec fn analysis_diags(source: Seq<char>) -> Seq<DiagV> {
    spec_lex(source).diags + spec_parse(spec_lex(source).lines).diags + norm_seq(
        source_decls(source),
    ).diags + validation_diags(source_diagram(source))
}

/// Front half of the pipeline: lex, parse, normalize and validate. The
/// document and the diagram come back whatever the diagnostics say; check
/// `has_errors` on the engine before trusting them.
pub fn analyze(source: &str, strict: bool) -> (r: (Document, Diagram, DiagEngine))
    requires
        bytes_of(source@).len() < usize::MAX / 4,
    ensures
        r.0@ == source_decls(source@),
        r.1.wf(),
        r.1@ == source_diagram(source@),
        r.2@ == analysis_diags(source@),
        r.2.strict == strict,
{
    let mut diags = DiagEngine::new().with_strict(strict);
    let lex_lines = lex(source, &mut diags);
    proof {
        lemma_lex_lines_len(bytes_of(source@), 0, 0);
    }
    let doc = parse(&lex_lines, &mut diags);
    let diagram = normalize(&doc, &mut diags);
    validate(&diagram, &mut diags);
    assert(diags@ =~= analysis_diags(source@));
    (doc, diagram, diags)
}

/// The analysis fails exactly when some stage fails: an error of the lexer,
/// the parser, normalization or validation is an error of the analysis,
/// and the analysis has no other.
pub proof fn lemma_analysis_fails_with_any_stage(source: Seq<char>)
    ensures
        has_error(analysis_diags(source)) == (has_error(spec_lex(source).diags) || has_error(
            spec_parse(spec_lex(source).lines).diags,
        ) || has_error(norm_seq(source_decls(source)).diags) || has_error(
            validation_diags(source_diagram(source)),
        )),
{
    let a = spec_lex(source).diags;
    let b = spec_parse(spec_lex(source).lines).diags;
    let c = norm_seq(source_decls(source)).diags;
    let d = validation_diags(source_diagram(source));
    lemma_has_error_concat(a, b);
    lemma_has_error_concat(a + b, c);
    lemma_has_error_concat(a + b + c, d);
}

/// A source in which some line, after its indentation, starts with a
/// printable ASCII character other than `#` and holds a quote that nothing
/// before it on the line opens or comments out and that no later quote
/// closes fails analysis: its lexer reports the unterminated string.
pub proof fn lemma_unclosed_quote_fails_analysis(source: Seq<char>, j: nat, w: int, p: int)
    requires
        bytes_of(source).len() < usize::MAX,
        ({
            let b = bytes_of(source);
            let s = line_start(b, 0, j);
            let e = line_end(b, s, next_nl(b, s));
            &&& s < b.len()
            &&& s <= w <= p < e
            &&& forall|i: int| s <= i < w ==> b[i] == 32 || b[i] == 9
            &&& 32 < b[w] < 127
            &&& b[w] != 35
            &&& b[p] == 34
            &&& forall|i: int| w <= i < p ==> b[i] != 34 && b[i] != 35
            &&& forall|i: int| p < i < e ==> b[i] != 34 && b[i] != 92
        }),
    ensures
        has_error(analysis_diags(source)),
{
    let b = bytes_of(source);
    let s = line_start(b, 0, j);
    let nl = next_nl(b, s);
    let e = line_end(b, s, nl);
    lemma_decode_bytes(source);
    lemma_line_start_nonneg(b, 0, j);
    lemma_next_nl(b, s);
    assert(e <= b.len());
    if e < b.len() {
        assert(b[e] == 10 || b[e] == 13);
    }
    assert(at_boundary(b, e));
    lemma_boundary(b, e);
    valid_utf8_split(b, e);
    let b0 = b.subrange(0, e);
    assert(b0[w] == b[w]);
    assert(at_boundary(b0, w));
    lemma_boundary(b0, w);
    valid_utf8_split(b0, w);
    assert(b0.subrange(w, b0.len() as int) =~= b.subrange(w, e));
    let ln = (0 + j + 1) as u32;
    lemma_unclosed_quote_fails_the_line(b, s, w, p, e, ln);
    let d = dg(Severity::Error, "unterminated string literal"@, Some(tspan(ln, w - s, p - w, e - w)));
    lemma_lex_reports_each_line(b, 0, 0, j, d);
    let ds = lex_from(b, 0, 0).diags;
    let k = choose|k: int| 0 <= k < ds.len() && ds[k] == d;
    assert(ds[k].severity == Severity::Error);
    assert(has_error(spec_lex(source).diags));
    lemma_analysis_fails_with_any_stage(source);
}

} // verus!
