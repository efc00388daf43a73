//! What holds of the signs in texts: escapes, names, calls and what is wrong with them.

use vstd::prelude::*;

use crate::ast::{EvalStringView, PieceDataView};
use crate::code::{Cursor, SpanView};
use crate::error::{
    expected_error, plain_error, quoted_expansion_error, quotes_error, AnnotationKind, ErrorView,
};
use crate::grammar::{
    dollar, eval_string, expansion, func_rules, is_space, lemma_scan_is, name_chars, quoted,
    whitespace, QuoteState,
};
use crate::laws_call::{
    args_ok, args_text, args_told, asks_for, law_plain_call_is_read, pieces_told, Arg,
};
use crate::laws_text::law_missing_names;
use crate::list::QuoteMode;
use crate::plain::{
    is_name, law_characters_of_names, lemma_ahead, lemma_name, lemma_peek, name_code, spaces,
};
use crate::progress::{lemma_eval_string, lemma_invalid_name};

verus! {

/// The error says `title` and, at `span`, `label`, and nothing more.
pub open spec fn says(e: ErrorView, title: Seq<char>, span: SpanView, label: Seq<char>) -> bool {
    &&& e.title == title
    &&& e.info is None
    &&& e.help is None
    &&& e.marks.len() == 1
    &&& e.marks[0].kind == AnnotationKind::Primary
    &&& e.marks[0].label == label
    &&& e.marks[0].span == span
    &&& e.edits is None
}

/// The error says `title` at `span`, and nothing more.
pub open spec fn tells(e: ErrorView, title: Seq<char>, span: SpanView) -> bool {
    says(e, title, span, "here"@)
}

/// One of the errors asks for `fix` at `at`, and says `title`.
pub open spec fn asked_for(
    errors: Seq<ErrorView>,
    title: Seq<char>,
    at: nat,
    fix: Seq<char>,
) -> bool {
    exists|k: int| 0 <= k < errors.len() && asks_for(#[trigger] errors[k], title, at, fix)
}

/// One of the errors says `title` at `span`.
pub open spec fn told(errors: Seq<ErrorView>, title: Seq<char>, span: SpanView) -> bool {
    exists|k: int| 0 <= k < errors.len() && tells(#[trigger] errors[k], title, span)
}

// --------------------------------------------------------------------- escapes

/// What `$` and this character stand for, if they are an escape.
pub open spec fn escape_of(ch: char) -> Option<char> {
    let n = ch as u32;
    if n == 0x24 {
        Some('$')
    } else if n == 0x3a {
        Some(':')
    } else if n == 0x20 {
        Some(' ')
    } else if n == 0x5e {
        Some('\n')
    } else {
        None
    }
}

/// `$$`, `$:` and `$ ` stand for their second character, and `$^` stands for a line feed.
/// Behind the last two a word can begin, unless a backslash stands before them.
pub proof fn law_escapes(c: Cursor, q: QuoteState, quotes: bool, ch: char, tail: Seq<char>)
    requires
        c.wf(),
        c.rest() == seq!['$', ch] + tail,
        escape_of(ch) is Some,
    ensures
        ({
            let x = dollar(c, q, quotes);
            &&& x.errors.len() == 0
            &&& x.next.rest() == tail
            &&& x.next.at == c.at + 2
            &&& x.pieces.len() == 1
            &&& x.pieces[0].data is Literal
            &&& x.pieces[0].data->Literal_0 == seq![escape_of(ch)->0]
            &&& x.pieces[0].span == c.to(c.skip(2))
            &&& x.quote.mode == q.mode
            &&& !x.quote.escape
            &&& x.quote.blank == (!q.escape && (ch == ' ' || ch == '^'))
        }),
{
    lemma_peek(c, seq!['$', ch] + tail);
    lemma_ahead(c, seq!['$', ch], tail);
    reveal_strlit("$");
    reveal_strlit(":");
    reveal_strlit(" ");
    reveal_strlit("\n");
    assert("$"@ =~= seq!['$']);
    assert(":"@ =~= seq![':']);
    assert(" "@ =~= seq![' ']);
    assert("\n"@ =~= seq!['\n']);
    assert(c.skip(1).skip(1) == c.skip(2));
}

/// An escaped line break stands for nothing, with the spaces behind it.
pub proof fn law_escaped_line_break(
    c: Cursor,
    q: QuoteState,
    quotes: bool,
    cr: bool,
    k: nat,
    tail: Seq<char>,
)
    requires
        c.wf(),
        c.rest() == (if cr {
            seq!['$', '\r', '\n']
        } else {
            seq!['$', '\n']
        }) + (spaces(k) + tail),
        tail.len() > 0 ==> tail[0] != ' ',
    ensures
        ({
            let x = dollar(c, q, quotes);
            &&& x.errors.len() == 0
            &&& x.pieces.len() == 0
            &&& x.next.rest() == tail
            &&& x.quote.mode == q.mode
            &&& x.quote.escape == q.escape
        }),
{
    let head = if cr {
        seq!['$', '\r', '\n']
    } else {
        seq!['$', '\n']
    };
    let rest = spaces(k) + tail;
    lemma_ahead(c, head, rest);
    lemma_peek(c, head + rest);
    let e = c.skip(1);
    if cr {
        assert(c.text[c.at + 2] == head[2]);
        assert(e.skip(1).sees('\n'));
        assert(e.newline() == 2);
    } else {
        assert(e.newline() == 1);
    }
    let d = c.skip(head.len() as int);
    assert(e.skip(e.newline()) == d);
    lemma_ahead(d, spaces(k), tail);
    let f = d.skip(k as int);
    assert forall|j: int| d.at <= j < f.at implies is_space()(#[trigger] d.text[j]) by {
        assert(d.text[d.at + (j - d.at)] == spaces(k)[j - d.at]);
    }
    lemma_scan_is(d, is_space(), f);
}

// ----------------------------------------------------------------------- names

/// A dollar sign before anything that it does not go with stands for itself, with an
/// error.
pub proof fn law_stray_dollar(c: Cursor, q: QuoteState, ch: char, tail: Seq<char>)
    requires
        c.wf(),
        c.rest() == seq!['$', ch] + tail,
        !name_code(ch) || ch == '.',
        escape_of(ch) is None,
        ch != '{' && ch != '(' && ch != '"' && ch != '\'' && ch != '\n' && ch != '\r',
    ensures
        ({
            let x = dollar(c, q, false);
            &&& x.next == c.skip(1)
            &&& x.pieces.len() == 1
            &&& x.pieces[0].data is Literal
            &&& x.pieces[0].data->Literal_0 == seq!['$']
            &&& x.errors.len() == 1
            &&& tells(
                x.errors[0],
                "bad $-escape (literal $ must be written as $$)"@,
                c.to(c.skip(1)),
            )
        }),
{
    reveal(plain_error);
    reveal_strlit("$");
    assert("$"@ =~= seq!['$']);
    lemma_peek(c, seq!['$', ch] + tail);
    let e = c.skip(1);
    law_characters_of_names(ch, true);
    lemma_scan_is(e, name_chars(true), e);
    lemma_invalid_name(e, true);
    assert(dollar(c, q, false) == expansion(c, q, false));
}

/// A name in braces that nothing closes: the brace is asked for behind the name. A name
/// that is missing there is asked for too.
pub proof fn law_open_brace(c: Cursor, q: QuoteState, n: Seq<char>, tail: Seq<char>)
    requires
        c.wf(),
        c.rest() == seq!['$', '{'] + n + tail,
        n.len() == 0 || is_name(n),
        tail.len() > 0 ==> !name_code(tail[0]),
    ensures
        ({
            let x = dollar(c, q, false);
            let d = c.skip(2 + n.len() as int);
            let shut = tail.len() > 0 && tail[0] == '}';
            &&& x.next == (if shut {
                d.skip(1)
            } else {
                d
            })
            &&& x.pieces.len() == 1
            &&& x.pieces[0].data is Var
            &&& x.pieces[0].span == c.to(d)
            &&& n.len() > 0 ==> x.pieces[0].data->Var_0.name == n
            &&& x.errors.len() == (if shut {
                0int
            } else {
                1
            }) + (if n.len() == 0 {
                1int
            } else {
                0
            })
            &&& n.len() == 0 ==> asks_for(
                x.errors[0],
                "expected a variable name"@,
                d.offset(),
                "<variable_name>"@,
            )
            &&& !shut ==> asks_for(
                x.errors.last(),
                "expected a closing curly brace '}'"@,
                d.offset(),
                seq!['}'],
            )
        }),
{
    reveal(expected_error);
    reveal_strlit("}");
    assert("}"@ =~= seq!['}']);
    let s = seq!['$', '{'] + n + tail;
    assert(s =~= seq!['$', '{'] + (n + tail));
    lemma_peek(c, s);
    lemma_ahead(c, seq!['$', '{'], n + tail);
    let e = c.skip(2);
    assert(c.skip(1).skip(1) == e);
    lemma_ahead(e, n, tail);
    if n.len() > 0 {
        lemma_name(e, n, tail);
    } else {
        assert(n + tail =~= tail);
        lemma_peek(e, tail);
        if tail.len() > 0 {
            law_characters_of_names(tail[0], false);
        }
        lemma_scan_is(e, name_chars(false), e);
        lemma_invalid_name(e, false);
    }
    assert(dollar(c, q, false) == expansion(c, q, false));
}

/// A quoted name: the same mark has to close it, and the marks have to be double quotes.
/// `quote` is the mark, which is one of the two.
pub proof fn law_quoted_name(
    c: Cursor,
    q: QuoteState,
    quotes: bool,
    quote: char,
    n: Seq<char>,
    tail: Seq<char>,
)
    requires
        c.wf(),
        c.rest() == seq!['$', quote] + n + tail,
        quote == '"' || quote == '\'',
        is_name(n),
        tail.len() > 0 ==> !name_code(tail[0]),
        q.mode == QuoteMode::Unquoted,
        !q.escape,
    ensures
        ({
            let x = dollar(c, q, quotes);
            let d = c.skip(2 + n.len() as int);
            let shut = tail.len() > 0 && tail[0] == quote;
            let end = if shut {
                d.skip(1)
            } else {
                d
            };
            &&& x.next == end
            &&& x.pieces.len() == 1
            &&& x.pieces[0].data is QuoteVar
            &&& x.pieces[0].data->QuoteVar_0.name == n
            &&& x.pieces[0].span == c.to(end)
            &&& x.errors.len() == (if shut {
                0int
            } else {
                1
            }) + (if quote == '"' {
                0int
            } else {
                1
            })
            &&& !shut ==> asks_for(
                x.errors[0],
                "expected a closing double quote (\")"@,
                d.offset(),
                seq!['"'],
            )
            &&& quote == '\'' ==> {
                let e = x.errors.last();
                &&& e.title == "quoted variables and functions must use double quotes (\")"@
                &&& e.edits is Some
                &&& e.edits->0.len() == 2
                &&& e.edits->0[0].span == c.skip(1).to(c.skip(2))
                &&& e.edits->0[0].replacement == seq!['"']
                &&& e.edits->0[1].span == d.to(end)
                &&& e.edits->0[1].replacement == seq!['"']
            }
        }),
{
    reveal(expected_error);
    reveal(quotes_error);
    reveal_strlit("\"");
    assert("\""@ =~= seq!['"']);
    let s = seq!['$', quote] + n + tail;
    assert(s =~= seq!['$', quote] + (n + tail));
    lemma_peek(c, s);
    lemma_ahead(c, seq!['$', quote], n + tail);
    let e = c.skip(2);
    lemma_ahead(e, n, tail);
    lemma_name(e, n, tail);
    lemma_peek(e, n + tail);
    assert(name_code(n[0]));
    assert((n + tail)[0] == n[0]);
    assert(dollar(c, q, quotes) == quoted(c, q));
}

/// Inside quotes, and behind a backslash, a quoted name is refused.
pub proof fn law_quoted_name_inside_quotes(
    c: Cursor,
    q: QuoteState,
    quotes: bool,
    n: Seq<char>,
    tail: Seq<char>,
)
    requires
        c.wf(),
        c.rest() == seq!['$', '"'] + n + (seq!['"'] + tail),
        is_name(n),
    ensures
        ({
            let x = dollar(c, q, quotes);
            let end = c.skip(3 + n.len() as int);
            &&& x.next == end
            &&& x.errors.len() == (if q.escape {
                1int
            } else {
                0
            }) + (if q.mode != QuoteMode::Unquoted {
                1int
            } else {
                0
            })
            &&& q.escape ==> asks_for(
                x.errors[0],
                "quoted values cannot be preceded by backslashes"@,
                c.offset(),
                seq!['\\'],
            )
            &&& q.mode != QuoteMode::Unquoted ==> says(
                x.errors.last(),
                "cannot nest quoted expressions inside other quotes"@,
                c.to(end),
                "this expression is quoted"@,
            )
        }),
{
    reveal(expected_error);
    reveal(plain_error);
    reveal_strlit("\\");
    assert("\\"@ =~= seq!['\\']);
    let t = seq!['"'] + tail;
    assert(seq!['$', '"'] + n + t =~= seq!['$', '"'] + (n + t));
    lemma_peek(c, seq!['$', '"'] + n + t);
    lemma_ahead(c, seq!['$', '"'], n + t);
    let e = c.skip(2);
    lemma_ahead(e, n, t);
    lemma_name(e, n, t);
    lemma_peek(e, n + t);
    assert(name_code(n[0]));
    assert((n + t)[0] == n[0]);
    assert(e.skip(n.len() as int).skip(1) == c.skip(3 + n.len() as int));
    assert(dollar(c, q, quotes) == quoted(c, q));
}

// ----------------------------------------------------------------------- calls

/// A plain call is read as what stands in its parentheses.
pub proof fn law_plain_call(c: Cursor, q: QuoteState, s: Seq<Arg>, tail: Seq<char>)
    requires
        c.wf(),
        c.rest() == seq!['$', '('] + (args_text(s) + (seq![')'] + tail)),
        args_ok(s, true),
    ensures
        ({
            let x = dollar(c, q, false);
            &&& x.errors.len() == 0
            &&& x.next.rest() == tail
            &&& x.pieces.len() == 1
            &&& x.pieces[0].data is Func
            &&& x.pieces[0].span.start == c.offset()
            &&& x.pieces[0].span.end == c.skip(2 + args_text(s).len() as int).offset()
            &&& pieces_told(x.pieces[0].data->Func_0.pieces) == args_told(s)
        }),
{
    let inside = args_text(s) + (seq![')'] + tail);
    lemma_peek(c, seq!['$', '('] + inside);
    lemma_ahead(c, seq!['$', '('], inside);
    let e = c.skip(2);
    law_plain_call_is_read(e, s, tail);
    lemma_eval_string(e, func_rules());
    let f = eval_string(e, func_rules());
    lemma_peek(f.next, seq![')'] + tail);
    lemma_ahead(f.next, seq![')'], tail);
    assert(e.rest().len() == args_text(s).len() + f.next.rest().len());
    assert(f.next == c.skip(2 + args_text(s).len() as int));
    assert(c.skip(1).skip(1) == e);
    assert(dollar(c, q, false) == expansion(c, q, false));
}

/// A plain call in double quotes is read as what stands in its parentheses.
pub proof fn law_plain_quoted_call(
    c: Cursor,
    q: QuoteState,
    quotes: bool,
    s: Seq<Arg>,
    tail: Seq<char>,
)
    requires
        c.wf(),
        c.rest() == seq!['$', '"', '('] + (args_text(s) + (seq![')'] + (seq!['"'] + tail))),
        args_ok(s, true),
        q.mode == QuoteMode::Unquoted,
        !q.escape,
    ensures
        ({
            let x = dollar(c, q, quotes);
            &&& x.errors.len() == 0
            &&& x.next.rest() == tail
            &&& x.pieces.len() == 1
            &&& x.pieces[0].data is QuoteFunc
            &&& x.pieces[0].span == c.to(x.next)
            &&& pieces_told(x.pieces[0].data->QuoteFunc_0.pieces) == args_told(s)
        }),
{
    let rest = seq!['"'] + tail;
    let inside = args_text(s) + (seq![')'] + rest);
    lemma_peek(c, seq!['$', '"', '('] + inside);
    lemma_ahead(c, seq!['$', '"', '('], inside);
    assert(c.text[c.at + 2] == seq!['$', '"', '('][2]);
    let e = c.skip(3);
    law_plain_call_is_read(e, s, rest);
    lemma_eval_string(e, func_rules());
    let f = eval_string(e, func_rules());
    lemma_peek(f.next, seq![')'] + rest);
    lemma_ahead(f.next, seq![')'], rest);
    let g = f.next.skip(1);
    lemma_peek(g, rest);
    lemma_ahead(g, seq!['"'], tail);
    assert(c.skip(2).skip(1) == e);
    assert(dollar(c, q, quotes) == quoted(c, q));
}

/// A call that nothing closes: the parenthesis is asked for at the end of what was read.
pub proof fn law_open_call(c: Cursor, q: QuoteState, tail: Seq<char>)
    requires
        c.wf(),
        c.rest() == seq!['$', '('] + tail,
    ensures
        ({
            let x = dollar(c, q, false);
            let f = eval_string(c.skip(2), func_rules());
            &&& x.pieces.len() == 1
            &&& x.pieces[0].data == PieceDataView::Func(f.value)
            &&& f.next.sees(')') ==> x.next == f.next.skip(1) && x.errors == f.errors
            &&& !f.next.sees(')') ==> x.next == f.next && x.errors.len() == f.errors.len() + 1
                && asks_for(
                x.errors.last(),
                "expected closing parenthesis ')'"@,
                f.next.offset(),
                seq![')'],
            )
        }),
{
    reveal(expected_error);
    reveal_strlit(")");
    assert(")"@ =~= seq![')']);
    lemma_peek(c, seq!['$', '('] + tail);
    assert(c.skip(1).skip(1) == c.skip(2));
    assert(dollar(c, q, false) == expansion(c, q, false));
    let x = dollar(c, q, false);
    let f = eval_string(c.skip(2), func_rules());
    if f.next.sees(')') {
        assert(x.errors =~= f.errors);
    }
}

/// A call in quotes whose parenthesis nothing closes: only the parenthesis is asked for,
/// at the end of what was read.
pub proof fn law_open_quoted_call(c: Cursor, q: QuoteState, quotes: bool, tail: Seq<char>)
    requires
        c.wf(),
        c.rest() == seq!['$', '"', '('] + tail,
        q.mode == QuoteMode::Unquoted,
        !q.escape,
        !eval_string(c.skip(3), func_rules()).next.sees(')'),
    ensures
        ({
            let x = dollar(c, q, quotes);
            let f = eval_string(c.skip(3), func_rules());
            &&& x.pieces.len() == 1
            &&& x.pieces[0].data == PieceDataView::QuoteFunc(f.value)
            &&& x.pieces[0].span == c.to(f.next)
            &&& x.next == f.next
            &&& x.errors.len() == f.errors.len() + 1
            &&& x.errors.drop_last() == f.errors
            &&& asks_for(
                x.errors.last(),
                "expected closing parenthesis ')'"@,
                f.next.offset(),
                seq![')'],
            )
        }),
{
    reveal(expected_error);
    reveal_strlit(")");
    assert(")"@ =~= seq![')']);
    lemma_peek(c, seq!['$', '"', '('] + tail);
    lemma_ahead(c, seq!['$', '"', '('], tail);
    assert(c.text[c.at + 2] == seq!['$', '"', '('][2]);
    assert(c.skip(2).skip(1) == c.skip(3));
    assert(dollar(c, q, quotes) == quoted(c, q));
    let x = dollar(c, q, quotes);
    let f = eval_string(c.skip(3), func_rules());
    assert(x.errors.drop_last() =~= f.errors);
}

// ------------------------------------------------------------- between quotes

/// Where quotes are minded, an expansion is read as it is elsewhere. White space is asked
/// for before it, unless a word begins there, and inside quotes it is refused.
pub proof fn law_expansions_stand_alone(c: Cursor, q: QuoteState, ch: char, tail: Seq<char>)
    requires
        c.wf(),
        c.rest() == seq!['$', ch] + tail,
        ch == '{' || ch == '(' || (name_code(ch) && ch != '.'),
    ensures
        ({
            let x = dollar(c, q, true);
            let y = dollar(c, q, false);
            let a = if q.blank {
                0int
            } else {
                1
            };
            let b = if q.mode == QuoteMode::Unquoted {
                0int
            } else {
                1
            };
            &&& x.pieces == y.pieces
            &&& x.next == y.next
            &&& x.quote == y.quote
            &&& x.errors.len() == a + y.errors.len() + b
            &&& x.errors.subrange(a, a + y.errors.len()) == y.errors
            &&& !q.blank ==> asks_for(
                x.errors[0],
                "an expansion must be preceded by whitespace"@,
                c.offset(),
                if q.escape {
                    seq!['\\', ' ']
                } else {
                    seq![' ']
                },
            )
            &&& q.mode != QuoteMode::Unquoted ==> x.errors.last().title
                == "cannot expand inside quotes"@ && x.errors.last().marks.len() == 1
                && x.errors.last().marks[0].span == x.pieces[0].span
        }),
{
    reveal(expected_error);
    reveal(quoted_expansion_error);
    reveal_strlit(" ");
    reveal_strlit("\\ ");
    assert(" "@ =~= seq![' ']);
    assert("\\ "@ =~= seq!['\\', ' ']);
    lemma_peek(c, seq!['$', ch] + tail);
    let e = c.skip(1);
    law_missing_names(e, true);
    assert(e.rest()[0] == ch);
    lemma_dot_code(ch);
    assert(dollar(c, q, true) == expansion(c, q, true));
    assert(dollar(c, q, false) == expansion(c, q, false));
    let x = expansion(c, q, true);
    let y = expansion(c, q, false);
    let a = if q.blank {
        0int
    } else {
        1
    };
    assert(x.errors.subrange(a, a + y.errors.len()) =~= y.errors);
}

proof fn lemma_dot_code(ch: char)
    ensures
        ch as u32 == 0x2e <==> ch == '.',
{
}

// --------------------------------------------------------------------- writing

/// A call is written as its text in parentheses behind a dollar sign, and in double quotes
/// if it was read in them.
pub proof fn law_calls_are_written(f: EvalStringView)
    ensures
        PieceDataView::Func(f).text() == seq!['$', '('] + f.text() + seq![')'],
        PieceDataView::QuoteFunc(f).text() == seq!['$', '"', '('] + f.text() + seq![')', '"'],
{
    reveal_strlit("$(");
    reveal_strlit(")");
    reveal_strlit("$\"(");
    reveal_strlit(")\"");
    assert("$("@ =~= seq!['$', '(']);
    assert(")"@ =~= seq![')']);
    assert("$\"("@ =~= seq!['$', '"', '(']);
    assert(")\""@ =~= seq![')', '"']);
}

/// Literal text is written as it is, but for a dollar sign, a bar or a colon that stands
/// alone, which are escaped.
pub proof fn law_literals_are_written(s: Seq<char>)
    ensures
        s == seq!['$'] || s == seq!['|'] || s == seq![':'] ==> PieceDataView::Literal(s).text()
            == seq!['$'] + s,
        s != seq!['$'] && s != seq!['|'] && s != seq![':'] ==> PieceDataView::Literal(s).text()
            == s,
{
    reveal_strlit("$");
    reveal_strlit("|");
    reveal_strlit(":");
    assert("$"@ =~= seq!['$']);
    assert("|"@ =~= seq!['|']);
    assert(":"@ =~= seq![':']);
}

} // verus!
