//! The grammar of mex files: what stands ahead of a cursor, and what is wrong with it.

use vstd::prelude::*;

use crate::ast::{EvalStringView, PieceDataView, PieceView, VarnameView};
use crate::code::{lemma_run, lemma_run_bounds, run, Cursor, SpanView};
use crate::error::{expected_error, plain_error, quoted_expansion_error, quotes_error, ErrorView};
use crate::list::{parts_words, QuoteMode};
use crate::text::white_space;

verus! {

/// What was read: its value, where it ends, and what was wrong with it.
pub struct Parsed<T> {
    pub value: T,
    pub next: Cursor,
    pub errors: Seq<ErrorView>,
}

/// `e`, if it is owed.
pub open spec fn error_if(owed: bool, e: ErrorView) -> Seq<ErrorView> {
    if owed {
        seq![e]
    } else {
        seq![]
    }
}

// ---------------------------------------------------------------- white space

/// The place behind the characters ahead that satisfy `p`.
pub open spec fn scan(c: Cursor, p: spec_fn(char) -> bool) -> Cursor {
    c.skip(run(c.rest(), p) as int)
}

pub open spec fn is_space() -> spec_fn(char) -> bool {
    |ch: char| ch == ' '
}

pub open spec fn in_line() -> spec_fn(char) -> bool {
    |ch: char| ch != '\n'
}

/// The place behind spaces and escaped line breaks.
pub open spec fn blanks(c: Cursor) -> Cursor
    decreases c.left(),
{
    if c.sees(' ') {
        blanks(c.skip(1))
    } else if c.sees('$') && c.skip(1).newline() > 0 {
        blanks(c.skip(1 + c.skip(1).newline()))
    } else {
        c
    }
}

pub proof fn lemma_blanks(c: Cursor)
    ensures
        blanks(c).text == c.text,
        c.at <= blanks(c).at,
        c.wf() ==> blanks(c).wf(),
    decreases c.left(),
{
    if c.sees(' ') {
        lemma_blanks(c.skip(1));
    } else if c.sees('$') && c.skip(1).newline() > 0 {
        lemma_blanks(c.skip(1 + c.skip(1).newline()));
    }
}

/// A carriage return that begins no line break.
pub open spec fn naked_return(c: Cursor) -> bool {
    c.sees('\r') && !c.skip(1).sees('\n')
}

/// White space that is no part of a line break.
pub open spec fn inner_white_char(ch: char) -> bool {
    ch != '\r' && ch != '\n' && white_space(ch)
}

pub open spec fn inner_white(c: Cursor) -> bool {
    match c.peek() {
        Some(ch) => inner_white_char(ch),
        None => false,
    }
}

pub open spec fn naked_return_error(span: SpanView) -> ErrorView {
    plain_error("naked carriage returns aren't supported"@, span, "here"@)
}

pub open spec fn odd_white_error(span: SpanView) -> ErrorView {
    plain_error("unsupported whitespace (only a plain space, ' ', is allowed)"@, span, "here"@)
}

/// The place behind white space of any kind, with an error for each character of it
/// that should not be there.
pub open spec fn skip_white(c: Cursor) -> (Cursor, Seq<ErrorView>)
    decreases c.left(),
{
    let d = blanks(c);
    proof {
        lemma_blanks(c);
    }
    if naked_return(d) {
        let rest = skip_white(d.skip(1));
        (rest.0, seq![naked_return_error(d.to(d.skip(1)))] + rest.1)
    } else if inner_white(d) {
        let rest = skip_white(d.skip(1));
        (rest.0, seq![odd_white_error(d.to(d.skip(1)))] + rest.1)
    } else {
        (d, seq![])
    }
}

/// White space.
#[verifier::opaque]
pub open spec fn whitespace(c: Cursor) -> Parsed<SpanView> {
    let (end, errors) = skip_white(c);
    Parsed { value: c.to(end), next: end, errors }
}

pub proof fn lemma_skip_white(c: Cursor)
    ensures
        skip_white(c).0.text == c.text,
        c.at <= skip_white(c).0.at,
        c.wf() ==> skip_white(c).0.wf(),
    decreases c.left(),
{
    let d = blanks(c);
    lemma_blanks(c);
    if naked_return(d) || inner_white(d) {
        lemma_skip_white(d.skip(1));
    }
}

// ---------------------------------------------------------------------- names

/// The characters of a name. A simple name holds no dot.
pub open spec fn name_char(ch: char, simple: bool) -> bool {
    ||| 'a' <= ch <= 'z'
    ||| 'A' <= ch <= 'Z'
    ||| '0' <= ch <= '9'
    ||| ch == '_'
    ||| ch == '-'
    ||| !simple && ch == '.'
}

pub open spec fn name_chars(simple: bool) -> spec_fn(char) -> bool {
    |ch: char| name_char(ch, simple)
}

/// The name ahead, and where it ends.
pub open spec fn varname(c: Cursor, simple: bool) -> (VarnameView, Cursor) {
    let end = scan(c, name_chars(simple));
    if end == c {
        (VarnameView { name: VarnameView::invalid(), span: c.here() }, c)
    } else {
        (VarnameView { name: c.text_to(end), span: c.to(end) }, end)
    }
}

pub proof fn lemma_scan(c: Cursor, p: spec_fn(char) -> bool)
    requires
        c.wf(),
    ensures
        c.reaches(scan(c, p)),
        forall|k: int| c.at <= k < scan(c, p).at ==> p(#[trigger] c.text[k]),
        scan(c, p).at_end() || !p(scan(c, p).peek()->0),
{
    lemma_run_bounds(c.rest(), p);
    assert forall|k: int| c.at <= k < scan(c, p).at implies p(#[trigger] c.text[k]) by {
        assert(c.rest()[k - c.at] == c.text[k]);
    }
}

/// `scan` is the one place at which a run of `p` ends.
pub proof fn lemma_scan_is(c: Cursor, p: spec_fn(char) -> bool, end: Cursor)
    requires
        c.wf(),
        c.reaches(end),
        forall|k: int| c.at <= k < end.at ==> p(#[trigger] c.text[k]),
        end.at_end() || !p(end.peek()->0),
    ensures
        scan(c, p) == end,
{
    let n = end.at - c.at;
    assert forall|k: int| 0 <= k < n implies p(#[trigger] c.rest()[k]) by {
        assert(c.rest()[k] == c.text[c.at + k]);
    }
    lemma_run(c.rest(), p, n);
}

// ------------------------------------------------------- texts with variables

/// What a line break means in a text with variables.
#[derive(Debug, Clone, Copy, PartialEq, Eq, Structural)]
pub enum EvalStrNewline {
    /// It is a part of the text.
    Ignore,
    /// It ends the text, and stays ahead.
    Stop,
    /// It ends the text, and is read. The end of the file is an error.
    Consume,
}

/// Where a text with variables stands in regard to quotes.
#[derive(Debug, Clone, Copy, PartialEq, Eq, Structural)]
pub struct QuoteState {
    pub mode: QuoteMode,
    /// A backslash escapes the character ahead.
    pub escape: bool,
    /// A new word begins ahead.
    pub blank: bool,
}

/// How a text with variables is read.
pub struct EvalRules {
    /// The characters that end it.
    pub stop: Seq<char>,
    pub newline: EvalStrNewline,
    /// Whether it minds quotes.
    pub quotes: bool,
}

pub open spec fn func_rules() -> EvalRules {
    EvalRules { stop: seq![')'], newline: EvalStrNewline::Ignore, quotes: true }
}

pub open spec fn path_rules() -> EvalRules {
    EvalRules { stop: seq![' ', ':', '|'], newline: EvalStrNewline::Stop, quotes: false }
}

pub open spec fn line_rules() -> EvalRules {
    EvalRules { stop: seq![], newline: EvalStrNewline::Consume, quotes: false }
}

impl QuoteState {
    /// The state at the start of a text.
    pub open spec fn initial() -> QuoteState {
        QuoteState { mode: QuoteMode::Unquoted, escape: false, blank: true }
    }

    /// The same quotes, inside a word.
    pub open spec fn in_word(self) -> QuoteState {
        QuoteState { mode: self.mode, escape: false, blank: false }
    }

    /// The state behind the plain character `ch`.
    pub open spec fn after(self, ch: char) -> QuoteState {
        if self.escape {
            self.in_word()
        } else {
            match self.mode {
                QuoteMode::Unquoted => if parts_words(ch) {
                    QuoteState { blank: true, ..self.in_word() }
                } else if ch == '\\' {
                    QuoteState { escape: true, ..self }
                } else if ch == '\'' {
                    QuoteState { mode: QuoteMode::SingleQuoted, ..self.in_word() }
                } else if ch == '"' {
                    QuoteState { mode: QuoteMode::DoubleQuoted, ..self.in_word() }
                } else {
                    self.in_word()
                },
                QuoteMode::SingleQuoted => if ch == '\'' {
                    QuoteState { mode: QuoteMode::Unquoted, ..self.in_word() }
                } else {
                    self.in_word()
                },
                QuoteMode::DoubleQuoted => if ch == '\\' {
                    QuoteState { escape: true, ..self.in_word() }
                } else if ch == '"' {
                    QuoteState { mode: QuoteMode::Unquoted, ..self.in_word() }
                } else {
                    self.in_word()
                },
            }
        }
    }
}

/// Whether `ch` is no plain character of a text with variables. What ends the text is
/// plain behind a backslash and inside quotes, where they are minded.
pub open spec fn ends_literal(ch: char, q: QuoteState, rules: EvalRules) -> bool {
    ||| ch == '\r'
    ||| ch == '\n'
    ||| ch == '$'
    ||| rules.stop.contains(ch) && (rules.quotes ==> !q.escape && q.mode
        == QuoteMode::Unquoted)
}

/// The place behind plain characters, and the state there.
pub open spec fn literal(c: Cursor, q: QuoteState, rules: EvalRules) -> (Cursor, QuoteState)
    decreases c.left(),
{
    match c.peek() {
        Some(ch) => if ends_literal(ch, q, rules) {
            (c, q)
        } else {
            literal(
                c.skip(1),
                if rules.quotes {
                    q.after(ch)
                } else {
                    q
                },
                rules,
            )
        },
        None => (c, q),
    }
}

pub proof fn lemma_literal(c: Cursor, q: QuoteState, rules: EvalRules)
    ensures
        ({
            let (d, r) = literal(c, q, rules);
            &&& d.text == c.text
            &&& c.at <= d.at
            &&& c.wf() ==> d.wf()
            &&& d.peek() is Some ==> ends_literal(d.peek()->0, r, rules)
        }),
    decreases c.left(),
{
    match c.peek() {
        Some(ch) => if !ends_literal(ch, q, rules) {
            lemma_literal(
                c.skip(1),
                if rules.quotes {
                    q.after(ch)
                } else {
                    q
                },
                rules,
            );
        },
        None => {},
    }
}

pub open spec fn lit_piece(span: SpanView, lit: Seq<char>) -> PieceView {
    PieceView { span, data: PieceDataView::Literal(lit) }
}

/// What a dollar sign introduces.
pub struct Dollar {
    pub pieces: Seq<PieceView>,
    pub quote: QuoteState,
    pub next: Cursor,
    pub errors: Seq<ErrorView>,
}

/// What a whole text with variables, or the rest of one, holds.
pub struct EvalRun {
    pub pieces: Seq<PieceView>,
    pub next: Cursor,
    pub errors: Seq<ErrorView>,
}

impl Cursor {
    /// `later` is a place further on in the same text.
    pub open spec fn advances(self, later: Cursor) -> bool {
        later.text == self.text && self.at < later.at
    }
}

pub open spec fn missing_name_error(c: Cursor) -> ErrorView {
    expected_error("expected a variable name"@, "<variable_name>"@, c.here(), "here"@)
}

pub open spec fn missing_paren_error(c: Cursor) -> ErrorView {
    expected_error("expected closing parenthesis ')'"@, ")"@, c.here(), "here"@)
}

/// The value in the quotes of a quoted value, with the cursor behind the opening quote.
/// The flag says that the closing quote is due.
pub open spec fn quoted_value(c: Cursor) -> (Parsed<PieceDataView>, bool)
    decreases c.left(), 4nat,
{
    if c.sees('(') {
        let f = eval_string(c.skip(1), func_rules());
        let shut = f.next.sees(')');
        (
            Parsed {
                value: PieceDataView::QuoteFunc(f.value),
                next: if shut {
                    f.next.skip(1)
                } else {
                    f.next
                },
                errors: f.errors + error_if(!shut, missing_paren_error(f.next)),
            },
            shut,
        )
    } else {
        let (name, next) = varname(c, false);
        (
            Parsed {
                value: PieceDataView::QuoteVar(name),
                next,
                errors: error_if(!name.valid(), missing_name_error(next)),
            },
            true,
        )
    }
}

/// `$"name"` or `$"(...)"`, with the cursor at the dollar sign.
pub open spec fn quoted(c: Cursor, q: QuoteState) -> Dollar
    decreases c.left(), 0nat,
{
    let mark = c.skip(1).peek();
    if mark is None {
        Dollar { pieces: seq![], quote: q.in_word(), next: c, errors: seq![] }
    } else {
        let (v, due) = quoted_value(c.skip(2));
        let shut = due && v.next.peek() == mark;
        let end = if shut {
            v.next.skip(1)
        } else {
            v.next
        };
        Dollar {
            pieces: seq![PieceView { span: c.to(end), data: v.value }],
            quote: q.in_word(),
            next: end,
            errors: error_if(
                q.escape,
                expected_error(
                    "quoted values cannot be preceded by backslashes"@,
                    "\\"@,
                    c.here(),
                    "here"@,
                ),
            ) + v.errors + error_if(
                due && !shut,
                expected_error(
                    "expected a closing double quote (\")"@,
                    "\""@,
                    v.next.here(),
                    "here"@,
                ),
            ) + error_if(
                due && mark != Some('"'),
                quotes_error(c.skip(1).to(c.skip(2)), v.next.to(end)),
            ) + error_if(
                q.mode != QuoteMode::Unquoted,
                plain_error(
                    "cannot nest quoted expressions inside other quotes"@,
                    c.to(end),
                    "this expression is quoted"@,
                ),
            ),
        }
    }
}

/// `${name}`, `$(...)` or `$name`, with the cursor at the dollar sign. `quotes` says
/// whether quotes are minded.
pub open spec fn expansion(c: Cursor, q: QuoteState, quotes: bool) -> Dollar
    decreases c.left(), 0nat,
{
    let e = c.skip(1);
    let unparted = error_if(
        quotes && !q.blank,
        expected_error(
            "an expansion must be preceded by whitespace"@,
            if q.escape {
                "\\ "@
            } else {
                " "@
            },
            c.here(),
            "here"@,
        ),
    );
    let quoted = quotes && q.mode != QuoteMode::Unquoted;
    if e.sees('{') {
        let (name, next) = varname(e.skip(1), false);
        let shut = next.sees('}');
        Dollar {
            pieces: seq![PieceView { span: c.to(next), data: PieceDataView::Var(name) }],
            quote: q.in_word(),
            next: if shut {
                next.skip(1)
            } else {
                next
            },
            errors: unparted + error_if(!name.valid(), missing_name_error(next)) + error_if(
                !shut,
                expected_error("expected a closing curly brace '}'"@, "}"@, next.here(), "here"@),
            ) + error_if(quoted, quoted_expansion_error(c.to(next))),
        }
    } else if e.sees('(') {
        let f = eval_string(e.skip(1), func_rules());
        let shut = f.next.sees(')');
        Dollar {
            pieces: seq![PieceView { span: c.to(f.next), data: PieceDataView::Func(f.value) }],
            quote: q.in_word(),
            next: if shut {
                f.next.skip(1)
            } else {
                f.next
            },
            errors: unparted + f.errors + error_if(!shut, missing_paren_error(f.next)) + error_if(
                quoted,
                quoted_expansion_error(c.to(f.next)),
            ),
        }
    } else {
        let (name, next) = varname(e, true);
        if name.valid() {
            Dollar {
                pieces: seq![PieceView { span: c.to(next), data: PieceDataView::Var(name) }],
                quote: q.in_word(),
                next,
                errors: unparted + error_if(quoted, quoted_expansion_error(c.to(next))),
            }
        } else {
            Dollar {
                pieces: seq![lit_piece(c.to(e), "$"@)],
                quote: q.in_word(),
                next: e,
                errors: unparted + seq![
                    plain_error(
                        "bad $-escape (literal $ must be written as $$)"@,
                        c.to(e),
                        "here"@,
                    ),
                ],
            }
        }
    }
}

/// What a dollar sign introduces, with the cursor at it: an escaped character, an
/// escaped line break, which is dropped with the indentation of the next line, or a
/// value.
pub open spec fn dollar(c: Cursor, q: QuoteState, quotes: bool) -> Dollar
    decreases c.left(), 1nat,
{
    let e = c.skip(1);
    let word = q.in_word();
    let parted = QuoteState { blank: !q.escape, ..word };
    if e.sees('$') {
        Dollar {
            pieces: seq![lit_piece(c.to(e.skip(1)), "$"@)],
            quote: word,
            next: e.skip(1),
            errors: seq![],
        }
    } else if e.sees(':') {
        Dollar {
            pieces: seq![lit_piece(c.to(e.skip(1)), ":"@)],
            quote: word,
            next: e.skip(1),
            errors: seq![],
        }
    } else if e.sees(' ') {
        Dollar {
            pieces: seq![lit_piece(c.to(e.skip(1)), " "@)],
            quote: parted,
            next: e.skip(1),
            errors: seq![],
        }
    } else if e.sees('^') {
        Dollar {
            pieces: seq![lit_piece(c.to(e.skip(1)), "\n"@)],
            quote: parted,
            next: e.skip(1),
            errors: seq![],
        }
    } else if e.newline() > 0 {
        Dollar {
            pieces: seq![],
            quote: QuoteState { escape: q.escape, ..word },
            next: scan(e.skip(e.newline()), is_space()),
            errors: seq![],
        }
    } else if e.sees('"') || e.sees('\'') {
        quoted(c, q)
    } else {
        expansion(c, q, quotes)
    }
}

/// A stretch of a text with variables: plain characters and what follows them.
pub struct EvalStep {
    pub pieces: Seq<PieceView>,
    pub next: Cursor,
    pub errors: Seq<ErrorView>,
    /// The state with which the text goes on, unless it ends.
    pub more: Option<QuoteState>,
}

/// The stretch from `c` on whose plain characters end at `d`, where the state is `r`.
/// If a dollar sign stands there, `s` is what it introduces.
pub open spec fn eval_stretch(
    c: Cursor,
    d: Cursor,
    r: QuoteState,
    rules: EvalRules,
    s: Dollar,
) -> EvalStep {
    let lit = if c.at < d.at {
        seq![lit_piece(c.to(d), c.text_to(d))]
    } else {
        seq![]
    };
    let n = d.newline();
    if n > 0 {
        match rules.newline {
            EvalStrNewline::Ignore => EvalStep {
                pieces: lit + seq![lit_piece(d.to(d.skip(n)), "\n"@)],
                next: d.skip(n),
                errors: seq![],
                more: Some(QuoteState { blank: r.blank || !r.escape, ..r.in_word() }),
            },
            EvalStrNewline::Stop => EvalStep {
                pieces: lit,
                next: d,
                errors: seq![],
                more: None,
            },
            EvalStrNewline::Consume => EvalStep {
                pieces: lit,
                next: d.skip(n),
                errors: seq![],
                more: None,
            },
        }
    } else if d.peek() is Some && rules.stop.contains(d.peek()->0) {
        EvalStep { pieces: lit, next: d, errors: seq![], more: None }
    } else if d.sees('\r') {
        EvalStep {
            pieces: lit,
            next: d.skip(1),
            errors: seq![naked_return_error(d.skip(1).here())],
            more: Some(r.in_word()),
        }
    } else if d.at_end() {
        EvalStep {
            pieces: lit,
            next: d,
            errors: error_if(
                rules.newline == EvalStrNewline::Consume,
                plain_error("unexpected EOF"@, d.here(), "here"@),
            ),
            more: None,
        }
    } else {
        EvalStep {
            pieces: lit + s.pieces,
            next: s.next,
            errors: s.errors,
            more: Some(s.quote),
        }
    }
}

/// The stretch ahead of `c`, where the state is `q`.
pub open spec fn eval_step(c: Cursor, q: QuoteState, rules: EvalRules) -> EvalStep
    decreases c.left(), 2nat,
{
    let (d, r) = literal(c, q, rules);
    proof {
        lemma_literal(c, q, rules);
    }
    eval_stretch(c, d, r, rules, dollar(d, r, rules.quotes))
}

/// What stands from `c` to the end of a text with variables, where the state is `q`.
pub open spec fn eval_from(c: Cursor, q: QuoteState, rules: EvalRules) -> EvalRun
    decreases c.left(), 3nat,
{
    let s = eval_step(c, q, rules);
    if s.more is Some && c.advances(s.next) && !c.at_end() {
        let rest = eval_from(s.next, s.more->0, rules);
        EvalRun {
            pieces: s.pieces + rest.pieces,
            next: rest.next,
            errors: s.errors + rest.errors,
        }
    } else {
        EvalRun { pieces: s.pieces, next: s.next, errors: s.errors }
    }
}

/// An expansion must end a word.
pub open spec fn unparted_behind(piece: PieceView, next: PieceView) -> bool {
    &&& piece.data is Var || piece.data is Func
    &&& match next.data {
        PieceDataView::Literal(lit) => lit.len() == 0 || !parts_words(lit[0]),
        PieceDataView::Var(_) => false,
        PieceDataView::Func(_) => false,
        _ => true,
    }
}

pub open spec fn unparted_behind_error(end: nat) -> ErrorView {
    expected_error(
        "an expansion must be followed by whitespace"@,
        " "@,
        SpanView { start: end, end },
        "after this"@,
    )
}

/// The errors of the expansions that end no word.
#[verifier::opaque]
pub open spec fn unparted_errors(pieces: Seq<PieceView>) -> Seq<ErrorView>
    decreases pieces.len(),
{
    if pieces.len() < 2 {
        seq![]
    } else {
        let piece = pieces[pieces.len() - 2];
        unparted_errors(pieces.drop_last()) + error_if(
            unparted_behind(piece, pieces.last()),
            unparted_behind_error(piece.span.end),
        )
    }
}

/// A text with variables.
pub open spec fn eval_string(c: Cursor, rules: EvalRules) -> Parsed<EvalStringView>
    decreases c.left(), 4nat,
{
    let r = eval_from(c, QuoteState::initial(), rules);
    Parsed {
        value: EvalStringView { span: c.to(r.next), pieces: r.pieces },
        next: r.next,
        errors: r.errors + (if rules.quotes {
            unparted_errors(r.pieces)
        } else {
            seq![]
        }),
    }
}

} // verus!
