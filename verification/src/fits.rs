//! Everything that the parser points at lies in the text that it reads.

use vstd::prelude::*;

use crate::ast::{EvalStringView, PieceDataView, PieceView, VarnameView};
use crate::code::{Cursor, SpanView};
use crate::error::{
    all_fit, covers, expected_error, missing_depth_error, plain_error, quote_at,
    quoted_expansion_error, quotes_error, unexpected_variable_error, ErrorView,
};
use crate::grammar::{
    blanks, dollar, error_if, eval_from, eval_step, eval_string, expansion, func_rules, inner_white,
    lemma_blanks, lemma_literal, lemma_skip_white, lit_piece, literal, missing_name_error,
    missing_paren_error, naked_return, quoted, quoted_value, skip_white, unparted_behind,
    unparted_errors, varname, whitespace, Dollar, EvalRules, QuoteState,
};
use crate::list::QuoteMode;
use crate::progress::{
    lemma_dollar, lemma_eval_from, lemma_eval_step, lemma_eval_string, lemma_quoted_value,
    lemma_varname,
};
use crate::text::{lemma_offset_grows, offset_of};

verus! {

// -------------------------------------------------------------------- the tree

/// What stands at `span` in `text` is `s`.
pub open spec fn spells(text: Seq<char>, span: SpanView, s: Seq<char>) -> bool {
    exists|i: int, j: int|
        0 <= i <= j <= text.len() && span == (SpanView {
            start: #[trigger] offset_of(text, i),
            end: #[trigger] offset_of(text, j),
        }) && s == text.subrange(i, j)
}

/// `written` stands for `lit`: it is the same, or it is a sign escaped by a dollar sign,
/// or a line break.
pub open spec fn stands_for(written: Seq<char>, lit: Seq<char>) -> bool {
    ||| written == lit
    ||| written =~= seq!['$', '$'] && lit == "$"@
    ||| written =~= seq!['$', ':'] && lit == ":"@
    ||| written =~= seq!['$', ' '] && lit == " "@
    ||| written =~= seq!['$', '^'] && lit == "\n"@
    ||| (written =~= seq!['\n'] || written =~= seq!['\r', '\n']) && lit == "\n"@
}

/// What stands at `span` in `text` stands for `lit`.
pub open spec fn spells_literal(text: Seq<char>, span: SpanView, lit: Seq<char>) -> bool {
    exists|i: int, j: int|
        0 <= i <= j <= text.len() && span == (SpanView {
            start: #[trigger] offset_of(text, i),
            end: #[trigger] offset_of(text, j),
        }) && stands_for(text.subrange(i, j), lit)
}

impl SpanView {
    /// The range reaches over all of `inner`.
    pub open spec fn holds(self, inner: SpanView) -> bool {
        self.start <= inner.start && inner.end <= self.end
    }
}

impl VarnameView {
    /// The name stands in `text`, unless it is missing there.
    pub open spec fn fits(self, text: Seq<char>) -> bool {
        covers(text, self.span) && (self.valid() ==> spells(text, self.span, self.name))
    }
}

impl PieceDataView {
    /// What stands at `span` in `text` says this. What it holds stands inside of it.
    pub open spec fn fits(self, text: Seq<char>, span: SpanView) -> bool
        decreases self,
    {
        match self {
            PieceDataView::Literal(lit) => spells_literal(text, span, lit),
            PieceDataView::Var(name) => name.fits(text) && span.holds(name.span),
            PieceDataView::QuoteVar(name) => name.fits(text) && span.holds(name.span),
            PieceDataView::Func(f) => f.fits(text) && span.holds(f.span),
            PieceDataView::QuoteFunc(f) => f.fits(text) && span.holds(f.span),
        }
    }
}

impl PieceView {
    /// The part stands in `text`, and so does all that it holds.
    pub open spec fn fits(self, text: Seq<char>) -> bool
        decreases self,
    {
        covers(text, self.span) && self.data.fits(text, self.span)
    }
}

impl EvalStringView {
    /// The text with variables stands in `text`, and its parts stand there in order,
    /// inside of it.
    pub open spec fn fits(self, text: Seq<char>) -> bool
        decreases self,
    {
        &&& covers(text, self.span)
        &&& in_order(self.pieces, self.span)
        &&& forall|i: int| 0 <= i < self.pieces.len() ==> (#[trigger] self.pieces[i]).fits(text)
    }
}

/// The parts stand inside `span`, one behind the other.
pub open spec fn in_order(pieces: Seq<PieceView>, span: SpanView) -> bool {
    &&& forall|i: int| 0 <= i < pieces.len() ==> span.holds((#[trigger] pieces[i]).span)
    &&& forall|i: int, j: int|
        0 <= i < j < pieces.len() ==> (#[trigger] pieces[i]).span.end <= (
        #[trigger] pieces[j]).span.start
}

#[verifier::opaque]
pub open spec fn pieces_fit(pieces: Seq<PieceView>, text: Seq<char>, span: SpanView) -> bool {
    &&& in_order(pieces, span)
    &&& forall|i: int| 0 <= i < pieces.len() ==> (#[trigger] pieces[i]).fits(text)
}

// ---------------------------------------------------------------------- ranges

pub proof fn lemma_covers(c: Cursor, d: Cursor)
    requires
        c.wf(),
        c.reaches(d),
    ensures
        covers(c.text, c.to(d)),
        covers(c.text, c.here()),
        covers(c.text, d.here()),
        c.to(d).forward(),
        spells(c.text, c.to(d), c.text_to(d)),
{
    lemma_offset_grows(c.text, c.at, d.at);
    assert(c.to(d) == (SpanView {
        start: offset_of(c.text, c.at),
        end: offset_of(c.text, d.at),
    }));
}

/// What stands from `c` to `d` stands for `lit`.
proof fn lemma_spells_literal(c: Cursor, d: Cursor, lit: Seq<char>)
    requires
        c.wf(),
        c.reaches(d),
        stands_for(c.text_to(d), lit),
    ensures
        spells_literal(c.text, c.to(d), lit),
{
    assert(c.to(d) == (SpanView {
        start: offset_of(c.text, c.at),
        end: offset_of(c.text, d.at),
    }));
}

pub proof fn lemma_forward(text: Seq<char>, span: SpanView)
    requires
        covers(text, span),
    ensures
        span.forward(),
        covers(text, SpanView { start: span.start, end: span.start }),
        covers(text, SpanView { start: span.end, end: span.end }),
{
    let (i, j) = choose|i: int, j: int|
        0 <= i <= j <= text.len() && span == (SpanView {
            start: #[trigger] offset_of(text, i),
            end: #[trigger] offset_of(text, j),
        });
    lemma_offset_grows(text, i, j);
}

pub proof fn lemma_join(text: Seq<char>, a: SpanView, b: SpanView)
    requires
        covers(text, a),
        covers(text, b),
    ensures
        covers(text, a.join(b)),
{
    let (i, j) = choose|i: int, j: int|
        0 <= i <= j <= text.len() && a == (SpanView {
            start: #[trigger] offset_of(text, i),
            end: #[trigger] offset_of(text, j),
        });
    let (k, l) = choose|i: int, j: int|
        0 <= i <= j <= text.len() && b == (SpanView {
            start: #[trigger] offset_of(text, i),
            end: #[trigger] offset_of(text, j),
        });
    let s = if a.start <= b.start {
        i
    } else {
        k
    };
    let e = if a.end >= b.end {
        j
    } else {
        l
    };
    if s > e {
        lemma_offset_grows(text, e, s);
        lemma_offset_grows(text, i, j);
        lemma_offset_grows(text, k, l);
    }
    assert(a.join(b) == (SpanView { start: offset_of(text, s), end: offset_of(text, e) }));
}

// ---------------------------------------------------------------------- errors

pub proof fn lemma_no_errors(text: Seq<char>)
    ensures
        all_fit(seq![], text),
{
    reveal(all_fit);
}

pub proof fn lemma_one_fits(e: ErrorView, text: Seq<char>)
    requires
        e.fits(text),
    ensures
        all_fit(seq![e], text),
{
    reveal(all_fit);
}

pub proof fn lemma_fits_if(owed: bool, e: ErrorView, text: Seq<char>)
    requires
        owed ==> e.fits(text),
    ensures
        all_fit(error_if(owed, e), text),
{
    reveal(all_fit);
}

pub proof fn lemma_both_fit(a: Seq<ErrorView>, b: Seq<ErrorView>, text: Seq<char>)
    requires
        all_fit(a, text),
        all_fit(b, text),
    ensures
        all_fit(a + b, text),
{
    reveal(all_fit);
}

pub proof fn lemma_plain_fits(title: Seq<char>, span: SpanView, label: Seq<char>, text: Seq<char>)
    requires
        covers(text, span),
    ensures
        plain_error(title, span, label).fits(text),
{
    reveal(plain_error);
}

pub proof fn lemma_expected_fits(
    title: Seq<char>,
    expected: Seq<char>,
    span: SpanView,
    label: Seq<char>,
    text: Seq<char>,
)
    requires
        covers(text, span),
        span.start == span.end,
    ensures
        expected_error(title, expected, span, label).fits(text),
{
    reveal(expected_error);
}

pub proof fn lemma_quotes_fit(opening: SpanView, closing: SpanView, text: Seq<char>)
    requires
        quote_at(text, opening),
        covers(text, opening),
        covers(text, closing),
        closing.start == closing.end || quote_at(text, closing),
        opening.end <= closing.start,
    ensures
        quotes_error(opening, closing).fits(text),
{
    reveal(quotes_error);
}

pub proof fn lemma_quoted_expansion_fits(span: SpanView, text: Seq<char>)
    requires
        covers(text, span),
    ensures
        quoted_expansion_error(span).fits(text),
{
    reveal(quoted_expansion_error);
}

pub proof fn lemma_unexpected_variable_fits(
    name: Seq<char>,
    while_parsing: SpanView,
    span: SpanView,
    why: Seq<char>,
    text: Seq<char>,
)
    requires
        covers(text, while_parsing),
        covers(text, span),
    ensures
        unexpected_variable_error(name, while_parsing, span, why).fits(text),
{
    reveal(unexpected_variable_error);
}

pub proof fn lemma_missing_depth_fits(
    while_parsing: SpanView,
    span: SpanView,
    insert: SpanView,
    text: Seq<char>,
)
    requires
        covers(text, while_parsing),
        covers(text, span),
        covers(text, insert),
        insert.start == insert.end,
    ensures
        missing_depth_error(while_parsing, span, insert).fits(text),
{
    reveal(missing_depth_error);
}

// ----------------------------------------------------------------- white space

pub proof fn lemma_whitespace_fits(c: Cursor)
    requires
        c.wf(),
    ensures
        covers(c.text, whitespace(c).value),
        all_fit(whitespace(c).errors, c.text),
{
    reveal(whitespace);
    lemma_skip_white(c);
    lemma_covers(c, skip_white(c).0);
    lemma_skip_white_fits(c);
}

proof fn lemma_skip_white_fits(c: Cursor)
    requires
        c.wf(),
    ensures
        all_fit(skip_white(c).1, c.text),
    decreases c.left(),
{
    let d = blanks(c);
    lemma_blanks(c);
    if naked_return(d) || inner_white(d) {
        let span = d.to(d.skip(1));
        lemma_covers(d, d.skip(1));
        lemma_skip_white_fits(d.skip(1));
        let title = if naked_return(d) {
            "naked carriage returns aren't supported"@
        } else {
            "unsupported whitespace (only a plain space, ' ', is allowed)"@
        };
        lemma_plain_fits(title, span, "here"@, c.text);
        lemma_one_fits(plain_error(title, span, "here"@), c.text);
        lemma_both_fit(
            seq![plain_error(title, span, "here"@)],
            skip_white(d.skip(1)).1,
            c.text,
        );
    } else {
        lemma_no_errors(c.text);
    }
}

pub proof fn lemma_varname_fits(c: Cursor, simple: bool)
    requires
        c.wf(),
    ensures
        varname(c, simple).0.fits(c.text),
{
    lemma_varname(c, simple);
    lemma_covers(c, varname(c, simple).1);
}

// ------------------------------------------------------- texts with variables

spec fn dollar_fits(d: Dollar, c: Cursor) -> bool {
    pieces_fit(d.pieces, c.text, c.to(d.next)) && all_fit(d.errors, c.text)
}

proof fn lemma_no_pieces(text: Seq<char>, span: SpanView)
    ensures
        pieces_fit(seq![], text, span),
{
    reveal(pieces_fit);
}

proof fn lemma_one_piece(p: PieceView, text: Seq<char>, span: SpanView)
    requires
        covers(text, p.span),
        p.data.fits(text, p.span),
        span.holds(p.span),
    ensures
        pieces_fit(seq![p], text, span),
{
    reveal(pieces_fit);
    assert(p.fits(text));
}

/// Parts that stand from `c` to `d`, and then parts that stand from `d` to `e`.
proof fn lemma_more_pieces(a: Seq<PieceView>, b: Seq<PieceView>, c: Cursor, d: Cursor, e: Cursor)
    requires
        c.wf(),
        c.reaches(d),
        d.reaches(e),
        pieces_fit(a, c.text, c.to(d)),
        pieces_fit(b, c.text, d.to(e)),
    ensures
        pieces_fit(a + b, c.text, c.to(e)),
{
    reveal(pieces_fit);
    lemma_covers(c, d);
    lemma_covers(d, e);
}

/// A piece from `c` to `d` that stands for `lit`.
proof fn lemma_lit_piece(c: Cursor, d: Cursor, lit: Seq<char>)
    requires
        c.wf(),
        c.reaches(d),
        stands_for(c.text_to(d), lit),
    ensures
        pieces_fit(seq![lit_piece(c.to(d), lit)], c.text, c.to(d)),
{
    lemma_covers(c, d);
    lemma_spells_literal(c, d, lit);
    lemma_one_piece(lit_piece(c.to(d), lit), c.text, c.to(d));
}

/// What stands inside a range stands inside a wider one.
proof fn lemma_wider(data: PieceDataView, text: Seq<char>, inner: SpanView, outer: SpanView)
    requires
        data !is Literal,
        data.fits(text, inner),
        outer.holds(inner),
    ensures
        data.fits(text, outer),
{
}

proof fn lemma_quoted_value_fits(c: Cursor)
    requires
        c.wf(),
    ensures
        all_fit(quoted_value(c).0.errors, c.text),
        quoted_value(c).0.value !is Literal,
        quoted_value(c).0.value.fits(c.text, c.to(quoted_value(c).0.next)),
    decreases c.left(), 4nat,
{
    if c.sees('(') {
        let f = eval_string(c.skip(1), func_rules());
        lemma_eval_string(c.skip(1), func_rules());
        lemma_eval_string_fits(c.skip(1), func_rules());
        lemma_covers(f.next, f.next);
        let shut = f.next.sees(')');
        lemma_covers(c, c.skip(1));
        if shut {
            lemma_covers(f.next, f.next.skip(1));
        }
        let e = missing_paren_error(f.next);
        lemma_expected_fits(
            "expected closing parenthesis ')'"@,
            ")"@,
            f.next.here(),
            "here"@,
            c.text,
        );
        lemma_fits_if(!shut, e, c.text);
        lemma_both_fit(f.errors, error_if(!shut, e), c.text);
        assert(f.value.span == c.skip(1).to(f.next));
    } else {
        let (name, next) = varname(c, false);
        lemma_varname(c, false);
        lemma_varname_fits(c, false);
        lemma_covers(c, next);
        let e = missing_name_error(next);
        lemma_expected_fits(
            "expected a variable name"@,
            "<variable_name>"@,
            next.here(),
            "here"@,
            c.text,
        );
        lemma_fits_if(!name.valid(), e, c.text);
    }
}

proof fn lemma_quoted_fits(c: Cursor, q: QuoteState)
    requires
        c.wf(),
        c.sees('$'),
        c.skip(1).sees('"') || c.skip(1).sees('\''),
    ensures
        dollar_fits(quoted(c, q), c),
    decreases c.left(), 0nat,
{
    let text = c.text;
    let mark = c.skip(1).peek();
    let (v, due) = quoted_value(c.skip(2));
    lemma_quoted_value(c.skip(2));
    lemma_quoted_value_fits(c.skip(2));
    let shut = due && v.next.peek() == mark;
    let end = if shut {
        v.next.skip(1)
    } else {
        v.next
    };
    lemma_covers(c, end);
    lemma_covers(c.skip(1), c.skip(2));
    lemma_covers(c.skip(2), v.next);
    lemma_covers(v.next, end);
    lemma_covers(c, c.skip(2));
    lemma_wider(v.value, text, c.skip(2).to(v.next), c.to(end));
    lemma_one_piece(PieceView { span: c.to(end), data: v.value }, text, c.to(end));
    let e0 = expected_error(
        "quoted values cannot be preceded by backslashes"@,
        "\\"@,
        c.here(),
        "here"@,
    );
    lemma_expected_fits(
        "quoted values cannot be preceded by backslashes"@,
        "\\"@,
        c.here(),
        "here"@,
        text,
    );
    lemma_fits_if(q.escape, e0, text);
    lemma_both_fit(error_if(q.escape, e0), v.errors, text);
    let known = error_if(q.escape, e0) + v.errors;
    let e1 = expected_error(
        "expected a closing double quote (\")"@,
        "\""@,
        v.next.here(),
        "here"@,
    );
    lemma_expected_fits(
        "expected a closing double quote (\")"@,
        "\""@,
        v.next.here(),
        "here"@,
        text,
    );
    lemma_fits_if(due && !shut, e1, text);
    lemma_both_fit(known, error_if(due && !shut, e1), text);
    let known = known + error_if(due && !shut, e1);
    let e2 = quotes_error(c.skip(1).to(c.skip(2)), v.next.to(end));
    let wrong = due && mark != Some('"');
    if wrong {
        assert(text[c.at + 1] == '\'');
        if shut {
            assert(text[v.next.at] == '\'');
        }
        lemma_quotes_fit(c.skip(1).to(c.skip(2)), v.next.to(end), text);
    }
    lemma_fits_if(wrong, e2, text);
    lemma_both_fit(known, error_if(wrong, e2), text);
    let known = known + error_if(wrong, e2);
    let e3 = plain_error(
        "cannot nest quoted expressions inside other quotes"@,
        c.to(end),
        "this expression is quoted"@,
    );
    lemma_plain_fits(
        "cannot nest quoted expressions inside other quotes"@,
        c.to(end),
        "this expression is quoted"@,
        text,
    );
    let nested = q.mode != QuoteMode::Unquoted;
    lemma_fits_if(nested, e3, text);
    lemma_both_fit(known, error_if(nested, e3), text);
    assert(quoted(c, q).errors == known + error_if(nested, e3));
}

proof fn lemma_expansion_fits(c: Cursor, q: QuoteState, quotes: bool)
    requires
        c.wf(),
        c.sees('$'),
    ensures
        dollar_fits(expansion(c, q, quotes), c),
    decreases c.left(), 0nat,
{
    let text = c.text;
    let e = c.skip(1);
    let x = expansion(c, q, quotes);
    lemma_covers(c, e);
    let fix = if q.escape {
        "\\ "@
    } else {
        " "@
    };
    let e0 = expected_error("an expansion must be preceded by whitespace"@, fix, c.here(), "here"@);
    lemma_expected_fits(
        "an expansion must be preceded by whitespace"@,
        fix,
        c.here(),
        "here"@,
        text,
    );
    let first = error_if(quotes && !q.blank, e0);
    lemma_fits_if(quotes && !q.blank, e0, text);
    let inside = quotes && q.mode != QuoteMode::Unquoted;
    if e.sees('{') {
        let (name, next) = varname(e.skip(1), false);
        lemma_varname(e.skip(1), false);
        lemma_varname_fits(e.skip(1), false);
        lemma_covers(c, next);
        lemma_covers(c, e.skip(1));
        lemma_covers(e.skip(1), next);
        let shut = next.sees('}');
        if shut {
            lemma_covers(next, next.skip(1));
        }
        lemma_one_piece(x.pieces[0], text, c.to(x.next));
        let e1 = missing_name_error(next);
        lemma_expected_fits(
            "expected a variable name"@,
            "<variable_name>"@,
            next.here(),
            "here"@,
            text,
        );
        lemma_fits_if(!name.valid(), e1, text);
        lemma_both_fit(first, error_if(!name.valid(), e1), text);
        let known = first + error_if(!name.valid(), e1);
        let e2 = expected_error("expected a closing curly brace '}'"@, "}"@, next.here(), "here"@);
        lemma_expected_fits(
            "expected a closing curly brace '}'"@,
            "}"@,
            next.here(),
            "here"@,
            text,
        );
        lemma_fits_if(!shut, e2, text);
        lemma_both_fit(known, error_if(!shut, e2), text);
        let known = known + error_if(!shut, e2);
        let e3 = quoted_expansion_error(c.to(next));
        lemma_quoted_expansion_fits(c.to(next), text);
        lemma_fits_if(inside, e3, text);
        lemma_both_fit(known, error_if(inside, e3), text);
    } else if e.sees('(') {
        let f = eval_string(e.skip(1), func_rules());
        lemma_eval_string(e.skip(1), func_rules());
        lemma_eval_string_fits(e.skip(1), func_rules());
        lemma_covers(c, f.next);
        lemma_covers(c, e.skip(1));
        lemma_both_fit(first, f.errors, text);
        let known = first + f.errors;
        let shut = f.next.sees(')');
        if shut {
            lemma_covers(f.next, f.next.skip(1));
        }
        assert(f.value.span == e.skip(1).to(f.next));
        lemma_one_piece(x.pieces[0], text, c.to(x.next));
        let e1 = missing_paren_error(f.next);
        lemma_expected_fits(
            "expected closing parenthesis ')'"@,
            ")"@,
            f.next.here(),
            "here"@,
            text,
        );
        lemma_fits_if(!shut, e1, text);
        lemma_both_fit(known, error_if(!shut, e1), text);
        let known = known + error_if(!shut, e1);
        let e2 = quoted_expansion_error(c.to(f.next));
        lemma_quoted_expansion_fits(c.to(f.next), text);
        lemma_fits_if(inside, e2, text);
        lemma_both_fit(known, error_if(inside, e2), text);
        assert(x.errors == known + error_if(inside, e2));
    } else {
        let (name, next) = varname(e, true);
        lemma_varname(e, true);
        lemma_varname_fits(e, true);
        lemma_covers(c, next);
        if name.valid() {
            lemma_covers(e, next);
            lemma_one_piece(x.pieces[0], text, c.to(next));
        } else {
            reveal_strlit("$");
            assert(c.text_to(e) =~= "$"@);
            lemma_lit_piece(c, e, "$"@);
        }
        lemma_quoted_expansion_fits(c.to(next), text);
        lemma_fits_if(inside, quoted_expansion_error(c.to(next)), text);
        lemma_both_fit(first, error_if(inside, quoted_expansion_error(c.to(next))), text);
        let bad = plain_error("bad $-escape (literal $ must be written as $$)"@, c.to(e), "here"@);
        lemma_plain_fits(
            "bad $-escape (literal $ must be written as $$)"@,
            c.to(e),
            "here"@,
            text,
        );
        lemma_one_fits(bad, text);
        lemma_both_fit(first, seq![bad], text);
    }
}

proof fn lemma_dollar_fits(c: Cursor, q: QuoteState, quotes: bool)
    requires
        c.wf(),
        c.sees('$'),
    ensures
        dollar_fits(dollar(c, q, quotes), c),
    decreases c.left(), 1nat,
{
    let e = c.skip(1);
    lemma_no_errors(c.text);
    if e.sees('$') || e.sees(':') || e.sees(' ') || e.sees('^') {
        let lit = if e.sees('$') {
            "$"@
        } else if e.sees(':') {
            ":"@
        } else if e.sees(' ') {
            " "@
        } else {
            "\n"@
        };
        assert(c.text_to(e.skip(1)) =~= seq!['$', c.text[c.at + 1]]);
        lemma_lit_piece(c, e.skip(1), lit);
    } else if e.newline() > 0 {
        lemma_no_pieces(c.text, c.to(dollar(c, q, quotes).next));
    } else if e.sees('"') || e.sees('\'') {
        lemma_quoted_fits(c, q);
    } else {
        lemma_expansion_fits(c, q, quotes);
    }
}

proof fn lemma_eval_step_fits(c: Cursor, q: QuoteState, rules: EvalRules)
    requires
        c.wf(),
    ensures
        pieces_fit(
            eval_step(c, q, rules).pieces,
            c.text,
            c.to(eval_step(c, q, rules).next),
        ),
        all_fit(eval_step(c, q, rules).errors, c.text),
    decreases c.left(), 2nat,
{
    let (d, r) = literal(c, q, rules);
    let s = eval_step(c, q, rules);
    lemma_literal(c, q, rules);
    lemma_no_errors(c.text);
    lemma_covers(c, d);
    lemma_covers(d, d);
    let lit = if c.at < d.at {
        seq![lit_piece(c.to(d), c.text_to(d))]
    } else {
        seq![]
    };
    if c.at < d.at {
        lemma_lit_piece(c, d, c.text_to(d));
    } else {
        lemma_no_pieces(c.text, c.to(d));
    }
    lemma_no_pieces(c.text, d.to(s.next));
    assert(lit + seq![] =~= lit);
    if d.newline() > 0 {
        let end = d.skip(d.newline());
        assert(d.text_to(end) =~= (if d.newline() == 1 {
            seq!['\n']
        } else {
            seq!['\r', '\n']
        }));
        lemma_lit_piece(d, end, "\n"@);
        lemma_more_pieces(lit, seq![lit_piece(d.to(end), "\n"@)], c, d, end);
        lemma_no_pieces(c.text, d.to(end));
        lemma_more_pieces(lit, seq![], c, d, end);
    } else if d.peek() is Some && rules.stop.contains(d.peek()->0) {
    } else if d.sees('\r') {
        let span = d.skip(1).here();
        lemma_covers(d, d.skip(1));
        lemma_plain_fits("naked carriage returns aren't supported"@, span, "here"@, c.text);
        lemma_one_fits(
            plain_error("naked carriage returns aren't supported"@, span, "here"@),
            c.text,
        );
        lemma_more_pieces(lit, seq![], c, d, d.skip(1));
    } else if d.at_end() {
        lemma_plain_fits("unexpected EOF"@, d.here(), "here"@, c.text);
        lemma_one_fits(plain_error("unexpected EOF"@, d.here(), "here"@), c.text);
    } else {
        let x = dollar(d, r, rules.quotes);
        lemma_dollar(d, r, rules.quotes);
        lemma_dollar_fits(d, r, rules.quotes);
        lemma_more_pieces(lit, x.pieces, c, d, x.next);
    }
}

proof fn lemma_eval_from_fits(c: Cursor, q: QuoteState, rules: EvalRules)
    requires
        c.wf(),
    ensures
        pieces_fit(
            eval_from(c, q, rules).pieces,
            c.text,
            c.to(eval_from(c, q, rules).next),
        ),
        all_fit(eval_from(c, q, rules).errors, c.text),
    decreases c.left(), 3nat,
{
    let s = eval_step(c, q, rules);
    lemma_eval_step(c, q, rules);
    lemma_eval_step_fits(c, q, rules);
    if s.more is Some {
        let rest = eval_from(s.next, s.more->0, rules);
        lemma_eval_from(s.next, s.more->0, rules);
        lemma_eval_from_fits(s.next, s.more->0, rules);
        lemma_both_fit(s.errors, rest.errors, c.text);
        lemma_more_pieces(s.pieces, rest.pieces, c, s.next, rest.next);
    }
}

proof fn lemma_unparted_fit(pieces: Seq<PieceView>, text: Seq<char>)
    requires
        forall|i: int| 0 <= i < pieces.len() ==> (#[trigger] pieces[i]).fits(text),
    ensures
        all_fit(unparted_errors(pieces), text),
    decreases pieces.len(),
{
    reveal_with_fuel(unparted_errors, 1);
    if pieces.len() < 2 {
        lemma_no_errors(text);
    } else {
        let piece = pieces[pieces.len() - 2];
        let owed = unparted_behind(piece, pieces.last());
        let end = SpanView { start: piece.span.end, end: piece.span.end };
        lemma_unparted_fit(pieces.drop_last(), text);
        assert(piece.fits(text));
        lemma_forward(text, piece.span);
        lemma_expected_fits(
            "an expansion must be followed by whitespace"@,
            " "@,
            end,
            "after this"@,
            text,
        );
        let e = expected_error(
            "an expansion must be followed by whitespace"@,
            " "@,
            end,
            "after this"@,
        );
        lemma_fits_if(owed, e, text);
        lemma_both_fit(unparted_errors(pieces.drop_last()), error_if(owed, e), text);
    }
}

pub proof fn lemma_eval_string_fits(c: Cursor, rules: EvalRules)
    requires
        c.wf(),
    ensures
        eval_string(c, rules).value.fits(c.text),
        all_fit(eval_string(c, rules).errors, c.text),
    decreases c.left(), 4nat,
{
    let r = eval_from(c, QuoteState::initial(), rules);
    lemma_eval_from(c, QuoteState::initial(), rules);
    lemma_eval_from_fits(c, QuoteState::initial(), rules);
    lemma_covers(c, r.next);
    reveal(pieces_fit);
    lemma_unparted_fit(r.pieces, c.text);
    lemma_no_errors(c.text);
    lemma_both_fit(r.errors, unparted_errors(r.pieces), c.text);
    lemma_both_fit(r.errors, seq![], c.text);
}

} // verus!
