//! The parser of mex files.

use vstd::prelude::*;

use crate::ast::{piece_views, EvalString, EvalStringPiece, EvalStringPieceData, Varname};
use crate::code::{CodeIter, Cursor, Span, Spanned};
use crate::error::{
    error_views, expected_error, new_parse_error, new_parse_error_expected,
    new_quoted_expansion_error, new_quotes_error, plain_error, quoted_expansion_error, quotes_error,
    ErrorView, ParseError,
};
use crate::grammar::{
    blanks, dollar, error_if, eval_from, eval_step, eval_stretch, eval_string, expansion,
    func_rules, inner_white_char, is_space, lemma_blanks, lemma_literal, lemma_scan_is, lit_piece,
    literal, missing_name_error, missing_paren_error, naked_return, naked_return_error, name_char,
    name_chars, odd_white_error, quoted, quoted_value, skip_white, unparted_behind,
    unparted_behind_error, unparted_errors, varname, whitespace, Dollar, EvalRules, EvalRun,
    EvalStep, EvalStrNewline, QuoteState,
};
use crate::list::QuoteMode;
use crate::progress::{lemma_eval_step, lemma_invalid_name};
use crate::text::{first_char, is_white_space, one_of};

verus! {

/// `after` reads the same source as `before`, from the place `next`.
pub open spec fn moved(before: CodeIter, after: CodeIter, next: Cursor) -> bool {
    after.wf() && after.reads() == before.reads() && after@ == next
}

/// `after` holds the errors of `before` and then `more`.
#[verifier::opaque]
pub open spec fn reported(
    before: Seq<ParseError>,
    after: Seq<ParseError>,
    more: Seq<ErrorView>,
) -> bool {
    error_views(after) == error_views(before) + more
}

pub(crate) fn report(errors: &mut Vec<ParseError>, e: ParseError)
    ensures
        reported(old(errors)@, final(errors)@, seq![e@]),
{
    errors.push(e);
    proof {
        reveal(reported);
        assert(error_views(errors@) =~= error_views(old(errors)@) + seq![e@]);
    }
}

pub proof fn lemma_reported_none(errors: Seq<ParseError>)
    ensures
        reported(errors, errors, seq![]),
{
    reveal(reported);
    assert(error_views(errors) + seq![] =~= error_views(errors));
}

pub proof fn lemma_reported_more(
    first: Seq<ParseError>,
    mid: Seq<ParseError>,
    last: Seq<ParseError>,
    head: Seq<ErrorView>,
    tail: Seq<ErrorView>,
)
    requires
        reported(first, mid, head),
        reported(mid, last, tail),
    ensures
        reported(first, last, head + tail),
{
    reveal(reported);
    assert(error_views(first) + head + tail =~= error_views(first) + (head + tail));
}

/// One more error, if it was owed.
pub proof fn lemma_reported_if(
    first: Seq<ParseError>,
    mid: Seq<ParseError>,
    last: Seq<ParseError>,
    head: Seq<ErrorView>,
    owed: bool,
    e: ErrorView,
)
    requires
        reported(first, mid, head),
        owed ==> reported(mid, last, seq![e]),
        !owed ==> last == mid,
    ensures
        reported(first, last, head + error_if(owed, e)),
{
    if !owed {
        lemma_reported_none(mid);
    }
    lemma_reported_more(first, mid, last, head, error_if(owed, e));
}

/// Reads a dollar sign with a line break.
fn take_escaped_newline<'a>(code: &mut CodeIter<'a>) -> (yes: bool)
    requires
        old(code).wf(),
    ensures
        yes == (old(code)@.sees('$') && old(code)@.skip(1).newline() > 0),
        moved(
            *old(code),
            *final(code),
            if yes {
                old(code)@.skip(1 + old(code)@.skip(1).newline())
            } else {
                old(code)@
            },
        ),
{
    code.speculate(
        |ahead: &mut CodeIter<'a>| -> (b: bool)
            requires
                old(ahead).wf(),
            ensures
                b == (old(ahead)@.sees('$') && old(ahead)@.skip(1).newline() > 0),
                b ==> moved(
                    *old(ahead),
                    *final(ahead),
                    old(ahead)@.skip(1 + old(ahead)@.skip(1).newline()),
                ),
        { ahead.next_char() == Some('$') && ahead.take_newline() })
}

/// Reads a carriage return that begins no line break.
fn take_naked_return<'a>(code: &mut CodeIter<'a>) -> (yes: bool)
    requires
        old(code).wf(),
    ensures
        yes == naked_return(old(code)@),
        moved(
            *old(code),
            *final(code),
            if yes {
                old(code)@.skip(1)
            } else {
                old(code)@
            },
        ),
{
    code.speculate(
        |ahead: &mut CodeIter<'a>| -> (b: bool)
            requires
                old(ahead).wf(),
            ensures
                b == naked_return(old(ahead)@),
                b ==> moved(*old(ahead), *final(ahead), old(ahead)@.skip(1)),
        { ahead.next_char() == Some('\r') && ahead.peek() != Some('\n') })
}

/// Reads spaces and escaped line breaks.
fn eat_blanks<'a>(code: &mut CodeIter<'a>) -> (r: Span)
    requires
        old(code).wf(),
    ensures
        moved(*old(code), *final(code), blanks(old(code)@)),
        r@ == old(code)@.to(blanks(old(code)@)),
{
    let start = code.clone();
    loop
        invariant_except_break
            start.wf(),
            code.wf(),
            code.reads() == start.reads(),
            blanks(code@) == blanks(start@),
        ensures
            start.wf(),
            moved(start, *code, blanks(start@)),
        decreases code@.left(),
    {
        if code.take_char_matches(' ') {
            continue;
        }
        if !take_escaped_newline(code) {
            break;
        }
    }
    start.up_to(code)
}

fn is_inner_white(ch: char) -> (yes: bool)
    ensures
        yes == inner_white_char(ch),
{
    ch != '\r' && ch != '\n' && is_white_space(ch)
}

/// Reads white space, and reports what of it should not be there.
fn eat_all_white<'a>(code: &mut CodeIter<'a>, errors: &mut Vec<ParseError>) -> (r: Span)
    requires
        old(code).wf(),
    ensures
        ({
            let p = whitespace(old(code)@);
            &&& moved(*old(code), *final(code), p.next)
            &&& reported(old(errors)@, final(errors)@, p.errors)
            &&& r@ == p.value
        }),
{
    let start = code.clone();
    let ghost first = errors@;
    let ghost mut known: Seq<ErrorView> = seq![];
    proof {
        reveal(whitespace);
        lemma_reported_none(first);
        assert(known + skip_white(start@).1 =~= skip_white(start@).1);
    }
    loop
        invariant_except_break
            start.wf(),
            code.wf(),
            code.reads() == start.reads(),
            reported(first, errors@, known),
            skip_white(start@).0 == skip_white(code@).0,
            skip_white(start@).1 == known + skip_white(code@).1,
        ensures
            start.wf(),
            moved(start, *code, skip_white(start@).0),
            reported(first, errors@, skip_white(start@).1),
        decreases code@.left(),
    {
        let ghost from = code@;
        let ghost before = errors@;
        proof {
            lemma_blanks(from);
        }
        eat_blanks(code);
        let special_start = code.clone();
        if take_naked_return(code) {
            report(
                errors,
                new_parse_error(
                    "naked carriage returns aren't supported",
                    &special_start.up_to(code),
                    "here",
                ),
            );
            proof {
                let e = naked_return_error(special_start@.to(code@));
                lemma_reported_more(first, before, errors@, known, seq![e]);
                assert(known + (seq![e] + skip_white(code@).1) =~= known + seq![e] + skip_white(
                    code@,
                ).1);
                known = known + seq![e];
            }
            continue;
        }
        let odd = code.take_char_if(
            |ch: char| -> (b: bool)
                ensures b == inner_white_char(ch),
            { is_inner_white(ch) });
        if odd.is_some() {
            report(
                errors,
                new_parse_error(
                    "unsupported whitespace (only a plain space, ' ', is allowed)",
                    &special_start.up_to(code),
                    "here",
                ),
            );
            proof {
                let e = odd_white_error(special_start@.to(code@));
                lemma_reported_more(first, before, errors@, known, seq![e]);
                assert(known + (seq![e] + skip_white(code@).1) =~= known + seq![e] + skip_white(
                    code@,
                ).1);
                known = known + seq![e];
            }
            continue;
        }
        proof {
            assert(known + seq![] =~= known);
        }
        break;
    }
    start.up_to(code)
}

/// Reads white space. Where errors can be reported, this is white space of any kind, and
/// what of it should not be there is reported; else only spaces and escaped line breaks.
pub fn eat_whitespace<'a>(code: &mut CodeIter<'a>, errors: Option<&mut Vec<ParseError>>) -> (r:
    Span)
    requires
        old(code).wf(),
    ensures
        match errors {
            Some(errors) => {
                let p = whitespace(old(code)@);
                &&& moved(*old(code), *final(code), p.next)
                &&& reported((*errors)@, (*final(errors))@, p.errors)
                &&& r@ == p.value
            },
            None => {
                let end = blanks(old(code)@);
                &&& moved(*old(code), *final(code), end)
                &&& r@ == old(code)@.to(end)
            },
        },
{
    match errors {
        Some(errors) => eat_all_white(code, errors),
        None => eat_blanks(code),
    }
}

pub(crate) fn is_name_char(ch: char, simple: bool) -> (yes: bool)
    ensures
        yes == name_char(ch, simple),
{
    ('a' <= ch && ch <= 'z') || ('A' <= ch && ch <= 'Z') || ('0' <= ch && ch <= '9') || ch == '_'
        || ch == '-' || !simple && ch == '.'
}

/// Reads a name.
pub fn parse_varname<'a>(code: &mut CodeIter<'a>, simple: bool) -> (r: Varname<'a>)
    requires
        old(code).wf(),
    ensures
        ({
            let (name, next) = varname(old(code)@, simple);
            &&& moved(*old(code), *final(code), next)
            &&& r@ == name
        }),
{
    let (span, name) = code.take_char_while(
        |ch: char| -> (b: bool)
            ensures b == name_char(ch, simple),
        { is_name_char(ch, simple) });
    proof {
        lemma_scan_is(old(code)@, name_chars(simple), code@);
    }
    if name.is_empty() {
        Varname::new_invalid_at(code)
    } else {
        Varname { name, span }
    }
}

/// Reads plain characters, and gives the state behind them.
fn take_literal<'a>(
    code: &mut CodeIter<'a>,
    q: QuoteState,
    stop_chars: &[char],
    quote_aware: bool,
    Ghost(rules): Ghost<EvalRules>,
) -> (r: (Span, &'a str, QuoteState))
    requires
        old(code).wf(),
        rules.stop == stop_chars@,
        rules.quotes == quote_aware,
    ensures
        ({
            let (d, q2) = literal(old(code)@, q, rules);
            &&& moved(*old(code), *final(code), d)
            &&& r.0@ == old(code)@.to(d)
            &&& r.1@ == old(code)@.text_to(d)
            &&& r.2 == q2
        }),
{
    let start = code.clone();
    let mut state = q;
    loop
        invariant_except_break
            start.wf(),
            code.wf(),
            code.reads() == start.reads(),
            start@.reaches(code@),
            rules.stop == stop_chars@,
            rules.quotes == quote_aware,
            literal(start@, q, rules) == literal(code@, state, rules),
        ensures
            start.wf(),
            code.wf(),
            code.reads() == start.reads(),
            start@.reaches(code@),
            literal(start@, q, rules) == (code@, state),
        decreases code@.left(),
    {
        let ch = match code.peek() {
            None => {
                break;
            },
            Some(ch) => ch,
        };
        if ch == '\r' || ch == '\n' || ch == '$' {
            break;
        }
        if one_of(stop_chars, ch) && (!quote_aware || !state.escape && state.mode
            == QuoteMode::Unquoted) {
            break;
        }
        if quote_aware {
            state = state.step(ch);
        }
        code.next_char();
    }
    proof {
        start.lemma_until(*code);
    }
    (start.up_to(code), start.as_str_until(code.pos()), state)
}

impl QuoteState {
    /// The state behind the plain character `ch`.
    fn step(self, ch: char) -> (r: Self)
        ensures
            r == self.after(ch),
    {
        let mut r = QuoteState { mode: self.mode, escape: false, blank: false };
        if self.escape {
            return r;
        }
        match self.mode {
            QuoteMode::Unquoted => {
                if ch == ' ' || ch == '\t' || ch == '\n' {
                    r.blank = true;
                } else if ch == '\\' {
                    r.escape = true;
                    r.blank = self.blank;
                } else if ch == '\'' {
                    r.mode = QuoteMode::SingleQuoted;
                } else if ch == '"' {
                    r.mode = QuoteMode::DoubleQuoted;
                }
            },
            QuoteMode::SingleQuoted => {
                if ch == '\'' {
                    r.mode = QuoteMode::Unquoted;
                }
            },
            QuoteMode::DoubleQuoted => {
                if ch == '\\' {
                    r.escape = true;
                } else if ch == '"' {
                    r.mode = QuoteMode::Unquoted;
                }
            },
        }
        r
    }
}

/// Reads the value in the quotes of a quoted value. The flag says that the closing quote
/// is due.
fn parse_quoted_value<'a>(code: &mut CodeIter<'a>, errors: &mut Vec<ParseError>) -> (r: (
    EvalStringPieceData<'a>,
    bool,
))
    requires
        old(code).wf(),
    ensures
        ({
            let (p, due) = quoted_value(old(code)@);
            &&& moved(*old(code), *final(code), p.next)
            &&& reported(old(errors)@, final(errors)@, p.errors)
            &&& r.0@ == p.value
            &&& r.1 == due
        }),
    decreases old(code)@.left(), 4nat,
{
    let ghost first = errors@;
    if code.take_char_matches('(') {
        let func_str = parse_eval_str(code, errors, &[')'], EvalStrNewline::Ignore, true);
        let ghost f = eval_string(old(code)@.skip(1), func_rules());
        proof {
            assert([')']@ =~= func_rules().stop);
        }
        let ghost mid = errors@;
        let shut = code.take_char_matches(')');
        if !shut {
            report(
                errors,
                new_parse_error_expected("expected closing parenthesis ')'", ")", &*code, "here"),
            );
        }
        proof {
            lemma_reported_if(first, mid, errors@, f.errors, !shut, missing_paren_error(f.next));
        }
        (EvalStringPieceData::QuoteFunc(func_str), shut)
    } else {
        let name = parse_varname(code, false);
        if !name.is_valid() {
            report(
                errors,
                new_parse_error_expected(
                    "expected a variable name",
                    "<variable_name>",
                    &*code,
                    "here",
                ),
            );
        }
        proof {
            lemma_reported_none(first);
        }
        (EvalStringPieceData::QuoteVar(name), true)
    }
}

/// Adds a part.
fn add_piece<'a>(pieces: &mut Vec<EvalStringPiece<'a>>, piece: EvalStringPiece<'a>)
    ensures
        piece_views(final(pieces)@) == piece_views(old(pieces)@) + seq![piece@],
{
    pieces.push(piece);
    proof {
        assert(piece_views(pieces@) =~= piece_views(old(pieces)@) + seq![piece@]);
    }
}

/// What `parse_dollar` and its parts do, in terms of what `d` says.
pub open spec fn read_dollar(
    code: (CodeIter, CodeIter),
    errors: (Seq<ParseError>, Seq<ParseError>),
    pieces: (Seq<EvalStringPiece>, Seq<EvalStringPiece>),
    d: Dollar,
) -> bool {
    &&& moved(code.0, code.1, d.next)
    &&& reported(errors.0, errors.1, d.errors)
    &&& piece_views(pieces.1) == piece_views(pieces.0) + d.pieces
}

/// Reads `$"name"` or `$"(...)"`.
fn parse_quoted<'a>(
    code: &mut CodeIter<'a>,
    errors: &mut Vec<ParseError>,
    pieces: &mut Vec<EvalStringPiece<'a>>,
    q: QuoteState,
)
    requires
        old(code).wf(),
        old(code)@.sees('$'),
        old(code)@.skip(1).sees('"') || old(code)@.skip(1).sees('\''),
    ensures
        read_dollar(
            (*old(code), *final(code)),
            (old(errors)@, final(errors)@),
            (old(pieces)@, final(pieces)@),
            quoted(old(code)@, q),
        ),
    decreases old(code)@.left(), 0nat,
{
    let ghost first = errors@;
    let ghost c = code@;
    let piece_start = code.clone();
    code.next_char();
    let escapee_start = code.clone();
    let quote_ch = match code.next_char() {
        Some(ch) => ch,
        None => '"',
    };
    let opening_quote_span = escapee_start.up_to(code);

    if q.escape {
        report(
            errors,
            new_parse_error_expected(
                "quoted values cannot be preceded by backslashes",
                "\\",
                &piece_start.span().start(),
                "here",
            ),
        );
    }
    let ghost e0 = error_if(
        q.escape,
        expected_error(
            "quoted values cannot be preceded by backslashes"@,
            "\\"@,
            c.here(),
            "here"@,
        ),
    );
    proof {
        lemma_reported_none(first);
    }

    let ghost mid = errors@;
    let (data, eat_closing_quote) = parse_quoted_value(code, errors);
    let ghost v = quoted_value(c.skip(2)).0;
    let ghost known = e0 + v.errors;
    proof {
        lemma_reported_more(first, mid, errors@, e0, v.errors);
    }

    let ghost mid = errors@;
    let closing_quote_start = code.clone();
    let shut = eat_closing_quote && code.take_char_matches(quote_ch);
    if eat_closing_quote && !shut {
        report(
            errors,
            new_parse_error_expected(
                "expected a closing double quote (\")",
                "\"",
                &*code,
                "here",
            ),
        );
    }
    let ghost e1 = expected_error(
        "expected a closing double quote (\")"@,
        "\""@,
        v.next.here(),
        "here"@,
    );
    proof {
        lemma_reported_if(first, mid, errors@, known, eat_closing_quote && !shut, e1);
    }
    let ghost known = known + error_if(eat_closing_quote && !shut, e1);
    let closing_quote_span = closing_quote_start.up_to(code);

    add_piece(pieces, EvalStringPiece::new(piece_start.up_to(code), data));

    let ghost mid = errors@;
    let wrong = eat_closing_quote && quote_ch != '"';
    if wrong {
        report(errors, new_quotes_error(&opening_quote_span, &closing_quote_span));
    }
    let ghost e2 = quotes_error(opening_quote_span@, closing_quote_span@);
    proof {
        lemma_reported_if(first, mid, errors@, known, wrong, e2);
    }
    let ghost known = known + error_if(wrong, e2);

    let ghost mid = errors@;
    let nested = q.mode != QuoteMode::Unquoted;
    if nested {
        report(
            errors,
            new_parse_error(
                "cannot nest quoted expressions inside other quotes",
                &piece_start.up_to(code),
                "this expression is quoted",
            ),
        );
    }
    let ghost e3 = plain_error(
        "cannot nest quoted expressions inside other quotes"@,
        c.to(code@),
        "this expression is quoted"@,
    );
    proof {
        lemma_reported_if(first, mid, errors@, known, nested, e3);
        assert(quoted(c, q).errors == known + error_if(nested, e3));
    }
}

/// Reads `${name}`, `$(...)` or `$name`.
fn parse_expansion<'a>(
    code: &mut CodeIter<'a>,
    errors: &mut Vec<ParseError>,
    pieces: &mut Vec<EvalStringPiece<'a>>,
    q: QuoteState,
    quote_aware: bool,
)
    requires
        old(code).wf(),
        old(code)@.sees('$'),
    ensures
        read_dollar(
            (*old(code), *final(code)),
            (old(errors)@, final(errors)@),
            (old(pieces)@, final(pieces)@),
            expansion(old(code)@, q, quote_aware),
        ),
    decreases old(code)@.left(), 0nat,
{
    let ghost first = errors@;
    let ghost c = code@;
    let piece_start = code.clone();
    code.next_char();

    let unparted = quote_aware && !q.blank;
    if unparted {
        let expected = if q.escape {
            "\\ "
        } else {
            " "
        };
        report(
            errors,
            new_parse_error_expected(
                "an expansion must be preceded by whitespace",
                expected,
                &piece_start,
                "here",
            ),
        );
    }
    let ghost known = error_if(
        unparted,
        expected_error(
            "an expansion must be preceded by whitespace"@,
            if q.escape {
                "\\ "@
            } else {
                " "@
            },
            c.here(),
            "here"@,
        ),
    );
    proof {
        lemma_reported_none(first);
    }
    let ghost mid = errors@;
    let quoted = quote_aware && q.mode != QuoteMode::Unquoted;
    let span: Span;

    if code.take_char_matches('{') {
        let name = parse_varname(code, false);
        let ghost next = code@;
        let valid = name.is_valid();
        if !valid {
            report(
                errors,
                new_parse_error_expected(
                    "expected a variable name",
                    "<variable_name>",
                    &*code,
                    "here",
                ),
            );
        }
        proof {
            lemma_reported_if(first, mid, errors@, known, !valid, missing_name_error(next));
        }
        let ghost known = known + error_if(!valid, missing_name_error(next));
        let ghost mid = errors@;
        span = piece_start.up_to(code);
        add_piece(pieces, EvalStringPiece::var(span, name));
        let shut = code.take_char_matches('}');
        if !shut {
            report(
                errors,
                new_parse_error_expected("expected a closing curly brace '}'", "}", &*code, "here"),
            );
        }
        let ghost e = expected_error(
            "expected a closing curly brace '}'"@,
            "}"@,
            next.here(),
            "here"@,
        );
        proof {
            lemma_reported_if(first, mid, errors@, known, !shut, e);
        }
        let ghost known = known + error_if(!shut, e);
        let ghost mid = errors@;
        if quoted {
            report(errors, new_quoted_expansion_error(&span));
        }
        proof {
            lemma_reported_if(first, mid, errors@, known, quoted, quoted_expansion_error(span@));
        }
    } else if code.take_char_matches('(') {
        let func_str = parse_eval_str(code, errors, &[')'], EvalStrNewline::Ignore, true);
        proof {
            assert([')']@ =~= func_rules().stop);
        }
        let ghost f = eval_string(c.skip(2), func_rules());
        proof {
            lemma_reported_more(first, mid, errors@, known, f.errors);
        }
        let ghost known = known + f.errors;
        let ghost mid = errors@;
        span = piece_start.up_to(code);
        add_piece(pieces, EvalStringPiece::func(span, func_str));
        let shut = code.take_char_matches(')');
        if !shut {
            report(
                errors,
                new_parse_error_expected("expected closing parenthesis ')'", ")", &*code, "here"),
            );
        }
        proof {
            lemma_reported_if(first, mid, errors@, known, !shut, missing_paren_error(f.next));
        }
        let ghost known = known + error_if(!shut, missing_paren_error(f.next));
        let ghost mid = errors@;
        if quoted {
            report(errors, new_quoted_expansion_error(&span));
        }
        proof {
            lemma_reported_if(first, mid, errors@, known, quoted, quoted_expansion_error(span@));
        }
    } else {
        let name = parse_varname(code, true);
        span = piece_start.up_to(code);
        if let Some(name) = name.valid() {
            add_piece(pieces, EvalStringPiece::var(span, name));
            if quoted {
                report(errors, new_quoted_expansion_error(&span));
            }
            proof {
                lemma_reported_if(
                    first,
                    mid,
                    errors@,
                    known,
                    quoted,
                    quoted_expansion_error(span@),
                );
            }
        } else {
            proof {
                lemma_invalid_name(c.skip(1), true);
            }
            add_piece(pieces, EvalStringPiece::lit(span, "$"));
            report(
                errors,
                new_parse_error("bad $-escape (literal $ must be written as $$)", &span, "here"),
            );
            proof {
                lemma_reported_more(
                    first,
                    mid,
                    errors@,
                    known,
                    seq![
                        plain_error(
                            "bad $-escape (literal $ must be written as $$)"@,
                            span@,
                            "here"@,
                        ),
                    ],
                );
            }
        }
    }
}

#[verifier::opaque]
spec fn dollar_at(c: Cursor, q: QuoteState, quotes: bool) -> Dollar {
    dollar(c, q, quotes)
}

/// Reads what a dollar sign introduces, and gives the state behind it.
fn parse_dollar<'a>(
    code: &mut CodeIter<'a>,
    errors: &mut Vec<ParseError>,
    pieces: &mut Vec<EvalStringPiece<'a>>,
    q: QuoteState,
    quote_aware: bool,
) -> (r: QuoteState)
    requires
        old(code).wf(),
        old(code)@.sees('$'),
    ensures
        read_dollar(
            (*old(code), *final(code)),
            (old(errors)@, final(errors)@),
            (old(pieces)@, final(pieces)@),
            dollar_at(old(code)@, q, quote_aware),
        ),
        r == dollar_at(old(code)@, q, quote_aware).quote,
    decreases old(code)@.left(), 1nat,
{
    reveal(dollar_at);
    let word = QuoteState { mode: q.mode, escape: false, blank: false };
    let parted = QuoteState { mode: q.mode, escape: false, blank: !q.escape };
    let piece_start = code.clone();
    let mut ahead = code.clone();
    ahead.next_char();
    proof {
        lemma_reported_none(errors@);
    }
    if ahead.take_char_matches('$') {
        *code = ahead;
        add_piece(pieces, EvalStringPiece::lit(piece_start.up_to(code), "$"));
        word
    } else if ahead.take_char_matches(':') {
        *code = ahead;
        add_piece(pieces, EvalStringPiece::lit(piece_start.up_to(code), ":"));
        word
    } else if ahead.take_char_matches(' ') {
        *code = ahead;
        add_piece(pieces, EvalStringPiece::lit(piece_start.up_to(code), " "));
        parted
    } else if ahead.take_char_matches('^') {
        *code = ahead;
        add_piece(pieces, EvalStringPiece::lit(piece_start.up_to(code), "\n"));
        parted
    } else if ahead.take_newline() {
        let ghost e = ahead@;
        *code = ahead;
        code.take_char_while(
            |ch: char| -> (b: bool)
                ensures b == is_space()(ch),
            { ch == ' ' });
        proof {
            lemma_scan_is(e, is_space(), code@);
            assert(piece_views(pieces@) + seq![] =~= piece_views(pieces@));
        }
        QuoteState { mode: q.mode, escape: q.escape, blank: false }
    } else {
        let mark = ahead.peek();
        if mark == Some('"') || mark == Some('\'') {
            parse_quoted(code, errors, pieces, q);
        } else {
            parse_expansion(code, errors, pieces, q, quote_aware);
        }
        word
    }
}

/// Reports the expansions that end no word.
fn check_parted<'a>(pieces: &Vec<EvalStringPiece<'a>>, errors: &mut Vec<ParseError>)
    ensures
        reported(old(errors)@, final(errors)@, unparted_errors(piece_views(pieces@))),
{
    reveal_with_fuel(unparted_errors, 1);
    let ghost first = errors@;
    let ghost views = piece_views(pieces@);
    proof {
        lemma_reported_none(first);
        if views.len() > 0 {
            assert(unparted_errors(views.take(1)) =~= seq![]);
        }
    }
    let mut i: usize = 1;
    while i < pieces.len()
        invariant
            1 <= i,
            pieces@.len() > 0 ==> i <= pieces@.len(),
            views == piece_views(pieces@),
            pieces@.len() > 0 ==> reported(
                first,
                errors@,
                unparted_errors(views.take(i as int)),
            ),
            pieces@.len() == 0 ==> errors@ == first,
        decreases pieces@.len() - i,
    {
        reveal_with_fuel(unparted_errors, 1);
        let piece = &pieces[i - 1];
        let next = &pieces[i];
        let expands = match piece.data {
            EvalStringPieceData::Var(_) => true,
            EvalStringPieceData::Func(_) => true,
            _ => false,
        };
        let forward_err = match next.data {
            EvalStringPieceData::Literal(lit) => match first_char(lit) {
                Some(ch) => !(ch == ' ' || ch == '\t' || ch == '\n'),
                None => true,
            },
            EvalStringPieceData::Func(_) => false,
            EvalStringPieceData::Var(_) => false,
            _ => true,
        };
        let ghost mid = errors@;
        if expands && forward_err {
            report(
                errors,
                new_parse_error_expected(
                    "an expansion must be followed by whitespace",
                    " ",
                    &piece.span().end(),
                    "after this",
                ),
            );
        }
        proof {
            let now = views.take(i + 1);
            assert(now.drop_last() =~= views.take(i as int));
            assert(now[now.len() - 2] == piece@);
            assert(now.last() == next@);
            lemma_reported_if(
                first,
                mid,
                errors@,
                unparted_errors(views.take(i as int)),
                unparted_behind(piece@, next@),
                unparted_behind_error(piece@.span.end),
            );
        }
        i += 1;
    }
    proof {
        assert(views.take(views.len() as int) =~= views);
        if views.len() == 0 {
            assert(unparted_errors(views) =~= seq![]);
        }
    }
}

/// Reads plain characters and what follows them. Gives the state with which the text
/// goes on, unless it ends.
fn parse_eval_step<'a>(
    code: &mut CodeIter<'a>,
    errors: &mut Vec<ParseError>,
    pieces: &mut Vec<EvalStringPiece<'a>>,
    state: QuoteState,
    stop_chars: &[char],
    newline_handling: EvalStrNewline,
    quote_aware: bool,
) -> (r: Option<QuoteState>)
    requires
        old(code).wf(),
    ensures
        ({
            let s = step_at(
                old(code)@,
                state,
                EvalRules {
                    stop: stop_chars@,
                    newline: newline_handling,
                    quotes: quote_aware,
                },
            );
            &&& moved(*old(code), *final(code), s.next)
            &&& reported(old(errors)@, final(errors)@, s.errors)
            &&& piece_views(final(pieces)@) == piece_views(old(pieces)@) + s.pieces
            &&& r == s.more
        }),
    decreases old(code)@.left(), 2nat,
{
    let ghost rules = EvalRules {
        stop: stop_chars@,
        newline: newline_handling,
        quotes: quote_aware,
    };
    let ghost first = errors@;
    let ghost c = code@;
    let ghost before = piece_views(pieces@);
    let ghost (d, q) = literal(c, state, rules);
    proof {
        lemma_literal(c, state, rules);
        lemma_step_at(c, state, rules);
        lemma_reported_none(first);
    }
    let (lit_span, lit, found) = take_literal(code, state, stop_chars, quote_aware, Ghost(rules));
    let ghost head = if c.at < d.at {
        seq![lit_piece(c.to(d), c.text_to(d))]
    } else {
        seq![]
    };
    if !lit.is_empty() {
        add_piece(pieces, EvalStringPiece::lit(lit_span, lit));
    }
    proof {
        assert(piece_views(pieces@) =~= before + head);
    }

    let piece_start = code.clone();
    if code.take_newline() {
        match newline_handling {
            EvalStrNewline::Ignore => {
                let span = piece_start.up_to(code);
                add_piece(pieces, EvalStringPiece::lit(span, "\n"));
                proof {
                    let nl = seq![lit_piece(span@, "\n"@)];
                    assert(before + head + nl =~= before + (head + nl));
                }
                return Some(
                    QuoteState {
                        mode: found.mode,
                        escape: false,
                        blank: found.blank || !found.escape,
                    },
                );
            },
            EvalStrNewline::Stop => {
                *code = piece_start;
            },
            EvalStrNewline::Consume => {},
        }
        return None;
    }
    let at_stop = match code.peek() {
        Some(ch) => one_of(stop_chars, ch),
        None => false,
    };
    if at_stop {
        return None;
    }
    if code.take_char_matches('\r') {
        report(
            errors,
            new_parse_error("naked carriage returns aren't supported", &*code, "here"),
        );
        return Some(QuoteState { mode: found.mode, escape: false, blank: false });
    }
    if code.is_empty() {
        if newline_handling == EvalStrNewline::Consume {
            report(errors, new_parse_error("unexpected EOF", &*code, "here"));
        }
        return None;
    }
    proof {
        assert(d.sees('$'));
    }
    let ghost s = dollar_at(d, q, quote_aware);
    let more = parse_dollar(code, errors, pieces, found, quote_aware);
    proof {
        assert(before + head + s.pieces =~= before + (head + s.pieces));
    }
    Some(more)
}

#[verifier::opaque]
spec fn step_at(c: Cursor, q: QuoteState, rules: EvalRules) -> EvalStep {
    eval_step(c, q, rules)
}

#[verifier::opaque]
spec fn run_at(c: Cursor, q: QuoteState, rules: EvalRules) -> EvalRun {
    eval_from(c, q, rules)
}

proof fn lemma_step_at(c: Cursor, q: QuoteState, rules: EvalRules)
    ensures
        ({
            let (d, r) = literal(c, q, rules);
            step_at(c, q, rules) == eval_stretch(
                c,
                d,
                r,
                rules,
                dollar_at(d, r, rules.quotes),
            )
        }),
{
    reveal(step_at);
    reveal(dollar_at);
}

proof fn lemma_run_at(c: Cursor, q: QuoteState, rules: EvalRules)
    requires
        c.wf(),
    ensures
        ({
            let s = step_at(c, q, rules);
            &&& c.reaches(s.next)
            &&& match s.more {
                None => run_at(c, q, rules) == (EvalRun {
                    pieces: s.pieces,
                    next: s.next,
                    errors: s.errors,
                }),
                Some(q2) => {
                    let rest = run_at(s.next, q2, rules);
                    &&& c.at < s.next.at
                    &&& run_at(c, q, rules) == (EvalRun {
                        pieces: s.pieces + rest.pieces,
                        next: rest.next,
                        errors: s.errors + rest.errors,
                    })
                },
            }
        }),
{
    reveal(step_at);
    reveal(run_at);
    lemma_eval_step(c, q, rules);
}

/// Reads a text with variables.
pub fn parse_eval_str<'a>(
    code: &mut CodeIter<'a>,
    errors: &mut Vec<ParseError>,
    stop_chars: &[char],
    newline_handling: EvalStrNewline,
    quote_aware: bool,
) -> (r: EvalString<'a>)
    requires
        old(code).wf(),
    ensures
        ({
            let p = eval_string(
                old(code)@,
                EvalRules {
                    stop: stop_chars@,
                    newline: newline_handling,
                    quotes: quote_aware,
                },
            );
            &&& moved(*old(code), *final(code), p.next)
            &&& reported(old(errors)@, final(errors)@, p.errors)
            &&& r@ == p.value
        }),
    decreases old(code)@.left(), 4nat,
{
    let ghost rules = EvalRules {
        stop: stop_chars@,
        newline: newline_handling,
        quotes: quote_aware,
    };
    let ghost first = errors@;
    let ghost mut known: Seq<ErrorView> = seq![];
    let start = code.clone();
    let mut pieces: Vec<EvalStringPiece<'a>> = Vec::new();
    let mut state = QuoteState { mode: QuoteMode::Unquoted, escape: false, blank: true };
    let ghost goal = run_at(code@, QuoteState::initial(), rules);
    proof {
        lemma_reported_none(first);
        assert(piece_views(pieces@) + goal.pieces =~= goal.pieces);
        assert(known + goal.errors =~= goal.errors);
    }
    loop
        invariant_except_break
            rules == (EvalRules {
                stop: stop_chars@,
                newline: newline_handling,
                quotes: quote_aware,
            }),
            start.wf(),
            start == *old(code),
            code.wf(),
            code.reads() == start.reads(),
            start@.reaches(code@),
            reported(first, errors@, known),
            goal.pieces == piece_views(pieces@) + run_at(code@, state, rules).pieces,
            goal.errors == known + run_at(code@, state, rules).errors,
            goal.next == run_at(code@, state, rules).next,
        ensures
            start.wf(),
            start == *old(code),
            moved(start, *code, goal.next),
            reported(first, errors@, goal.errors),
            piece_views(pieces@) == goal.pieces,
        decreases code@.left(),
    {
        let ghost c = code@;
        let ghost mid = errors@;
        let ghost before = piece_views(pieces@);
        let ghost s = step_at(c, state, rules);
        proof {
            lemma_run_at(c, state, rules);
        }
        let more = parse_eval_step(
            code,
            errors,
            &mut pieces,
            state,
            stop_chars,
            newline_handling,
            quote_aware,
        );
        proof {
            lemma_reported_more(first, mid, errors@, known, s.errors);
        }
        match more {
            None => {
                break;
            },
            Some(next) => {
                proof {
                    let rest = run_at(s.next, next, rules);
                    assert(before + (s.pieces + rest.pieces) =~= before + s.pieces + rest.pieces);
                    assert(known + (s.errors + rest.errors) =~= known + s.errors + rest.errors);
                    known = known + s.errors;
                }
                state = next;
            },
        }
    }
    proof {
        assert(goal == eval_from(start@, QuoteState::initial(), rules)) by {
            reveal(run_at);
        }
    }
    if quote_aware {
        let ghost mid = errors@;
        check_parted(&pieces, errors);
        proof {
            lemma_reported_more(first, mid, errors@, goal.errors, unparted_errors(goal.pieces));
        }
    } else {
        proof {
            assert(goal.errors + seq![] =~= goal.errors);
        }
    }
    EvalString { span: start.up_to(code), pieces }
}

} // verus!
