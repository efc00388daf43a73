//! What holds of the text in the parentheses of a function call: an expansion is a word
//! of its own there.

use vstd::prelude::*;

use crate::ast::{EvalStringView, PieceDataView, PieceView};
use crate::code::Cursor;
use crate::error::{
    expected_error, plain_error, quoted_expansion_error, AnnotationKind, ErrorView,
};
use crate::grammar::{
    dollar, ends_literal, eval_from, eval_stretch, eval_string, expansion, func_rules,
    lemma_literal, lemma_scan_is, literal, name_chars, unparted_behind, unparted_behind_error,
    unparted_errors, varname, Dollar, EvalRun, EvalStep, Parsed, QuoteState,
};
use crate::list::QuoteMode;
use crate::plain::{
    ahead, is_name, law_characters_of_names, lemma_ahead, lemma_name, lemma_peek, name_code,
};
use crate::progress::{lemma_eval_step, lemma_invalid_name};

verus! {

/// The characters that part words, by their codes: space, tab and line feed.
pub open spec fn blank_code(ch: char) -> bool {
    let n = ch as u32;
    n == 0x20 || n == 0x09 || n == 0x0a
}

/// Words are parted by spaces, tabs and line feeds, and by nothing else.
pub proof fn law_characters_between_words(ch: char)
    ensures
        crate::list::parts_words(ch) <==> blank_code(ch),
{
}

// ------------------------------------------------------------ behind expansions

/// Part `i` is an expansion, and no white space and no other expansion stands behind it.
pub open spec fn stuck_at(v: Seq<PieceView>, i: int) -> bool {
    &&& 0 <= i < v.len() - 1
    &&& v[i].data is Var || v[i].data is Func
    &&& !(v[i + 1].data is Var || v[i + 1].data is Func)
    &&& !(v[i + 1].data matches PieceDataView::Literal(s) && s.len() > 0 && blank_code(s[0]))
}

/// The error says `title` and, at the empty range at `at`, `label`. There `fix` is to be
/// put.
pub open spec fn asks(
    e: ErrorView,
    title: Seq<char>,
    at: nat,
    fix: Seq<char>,
    label: Seq<char>,
) -> bool {
    &&& e.title == title
    &&& e.info is None
    &&& e.help == Some("try applying the following change"@)
    &&& e.marks.len() == 1
    &&& e.marks[0].kind == AnnotationKind::Primary
    &&& e.marks[0].label == label
    &&& e.marks[0].span.start == at && e.marks[0].span.end == at
    &&& e.edits is Some
    &&& e.edits->0.len() == 1
    &&& e.edits->0[0].span.start == at && e.edits->0[0].span.end == at
    &&& e.edits->0[0].replacement == fix
}

/// The error says `title` at the empty range at `at`, where `fix` is to be put.
pub open spec fn asks_for(e: ErrorView, title: Seq<char>, at: nat, fix: Seq<char>) -> bool {
    asks(e, title, at, fix, "here"@)
}

/// The error asks for white space behind an expansion that ends at `at`.
pub open spec fn asks_for_white_behind(e: ErrorView, at: nat) -> bool {
    asks(e, "an expansion must be followed by whitespace"@, at, seq![' '], "after this"@)
}

/// One of the errors asks for white space behind an expansion that ends at `at`.
pub open spec fn white_asked_for(errors: Seq<ErrorView>, at: nat) -> bool {
    exists|k: int| 0 <= k < errors.len() && asks_for_white_behind(#[trigger] errors[k], at)
}

/// The error asks for white space behind an expansion that has none.
pub open spec fn white_missing(e: ErrorView, v: Seq<PieceView>) -> bool {
    exists|i: int| #[trigger] stuck_at(v, i) && asks_for_white_behind(e, v[i].span.end)
}

proof fn lemma_behind_error(at: nat)
    ensures
        asks_for_white_behind(unparted_behind_error(at), at),
{
    reveal(expected_error);
    reveal_strlit(" ");
    assert(" "@ =~= seq![' ']);
}

proof fn lemma_stuck_last(v: Seq<PieceView>)
    requires
        v.len() >= 2,
    ensures
        unparted_behind(v[v.len() - 2], v.last()) == stuck_at(v, v.len() - 2),
{
    match v.last().data {
        PieceDataView::Literal(lit) => {
            if lit.len() > 0 {
                law_characters_between_words(lit[0]);
            }
        },
        _ => {},
    }
}

proof fn lemma_stuck(v: Seq<PieceView>)
    ensures
        forall|i: int| #[trigger]
            stuck_at(v, i) ==> white_asked_for(unparted_errors(v), v[i].span.end),
        forall|k: int|
            0 <= k < unparted_errors(v).len() ==> white_missing(
                #[trigger] unparted_errors(v)[k],
                v,
            ),
    decreases v.len(),
{
    reveal_with_fuel(unparted_errors, 1);
    if v.len() >= 2 {
        let w = v.drop_last();
        let e = unparted_errors(v);
        let f = unparted_errors(w);
        lemma_stuck(w);
        let last = v.len() - 2;
        let own = stuck_at(v, last);
        lemma_stuck_last(v);
        lemma_behind_error(v[last].span.end);
        assert forall|i: int| #[trigger] stuck_at(v, i) implies white_asked_for(
            e,
            v[i].span.end,
        ) by {
            if i < last {
                assert(stuck_at(w, i));
                let k = choose|k: int|
                    0 <= k < f.len() && asks_for_white_behind(#[trigger] f[k], w[i].span.end);
                assert(e[k] == f[k]);
            } else {
                assert(e[f.len() as int] == unparted_behind_error(v[last].span.end));
            }
        }
        assert forall|k: int| 0 <= k < e.len() implies white_missing(#[trigger] e[k], v) by {
            if k < f.len() {
                assert(e[k] == f[k]);
                let i = choose|i: int|
                    #[trigger] stuck_at(w, i) && asks_for_white_behind(f[k], w[i].span.end);
                assert(stuck_at(v, i));
            } else {
                assert(stuck_at(v, last));
                assert(e[k] == unparted_behind_error(v[last].span.end));
            }
        }
    }
}

#[verifier::opaque]
spec fn call_read(c: Cursor) -> EvalRun {
    eval_from(c, QuoteState::initial(), func_rules())
}

#[verifier::opaque]
spec fn call(c: Cursor) -> Parsed<EvalStringView> {
    eval_string(c, func_rules())
}

proof fn lemma_call(c: Cursor)
    ensures
        call(c).value.pieces == call_read(c).pieces,
        call(c).next == call_read(c).next,
        call(c).errors == call_read(c).errors + unparted_errors(call_read(c).pieces),
{
    reveal(call);
    reveal(call_read);
}

/// Inside a call, white space is asked for behind just those expansions behind which
/// neither a space, a tab, a line feed, another expansion nor the end of the call
/// stands. All other errors are those of the parts.
pub proof fn law_expansions_end_words(c: Cursor)
    ensures
        ({
            let p = eval_string(c, func_rules());
            let v = p.value.pieces;
            let read = eval_from(c, QuoteState::initial(), func_rules()).errors;
            &&& p.errors.len() >= read.len()
            &&& p.errors.take(read.len() as int) == read
            &&& forall|i: int| #[trigger]
                stuck_at(v, i) ==> white_asked_for(p.errors.skip(read.len() as int), v[i].span.end)
            &&& forall|k: int|
                read.len() <= k < p.errors.len() ==> white_missing(#[trigger] p.errors[k], v)
        }),
{
    lemma_call(c);
    let errors = call(c).errors;
    let read = call_read(c).errors;
    let v = call_read(c).pieces;
    lemma_stuck(v);
    assert(errors.take(read.len() as int) =~= read);
    assert(errors.skip(read.len() as int) =~= unparted_errors(v));
    assert forall|k: int| read.len() <= k < errors.len() implies white_missing(
        #[trigger] errors[k],
        v,
    ) by {
        assert(errors[k] == unparted_errors(v)[k - read.len()]);
    }
    reveal(call);
    reveal(call_read);
}

// ------------------------------------------------------------------- arguments

/// A part of the text in a call.
pub enum Arg {
    /// A space, a tab or a line feed.
    Blank(char),
    /// A carriage return and a line feed, which stand for the line feed.
    Break,
    /// A character that stands for itself.
    Char(char),
    /// A character behind a backslash.
    Escaped(char),
    /// Characters between double quotes, or between single ones.
    Quoted(bool, Seq<char>),
    /// `$name`
    Var(Seq<char>),
    /// `${name}`
    Braced(Seq<char>),
}

pub open spec fn quote_of(double: bool) -> char {
    if double {
        '"'
    } else {
        '\''
    }
}

pub open spec fn arg_text(a: Arg) -> Seq<char> {
    match a {
        Arg::Blank(ch) => seq![ch],
        Arg::Break => seq!['\r', '\n'],
        Arg::Char(ch) => seq![ch],
        Arg::Escaped(ch) => seq!['\\', ch],
        Arg::Quoted(double, s) => seq![quote_of(double)] + s + seq![quote_of(double)],
        Arg::Var(n) => seq!['$'] + n,
        Arg::Braced(n) => seq!['$', '{'] + n + seq!['}'],
    }
}

pub open spec fn args_text(s: Seq<Arg>) -> Seq<char>
    decreases s.len(),
{
    if s.len() == 0 {
        seq![]
    } else {
        arg_text(s[0]) + args_text(s.skip(1))
    }
}

/// What the text says. The two forms of an expansion say the same.
pub open spec fn args_told(s: Seq<Arg>) -> Seq<char>
    decreases s.len(),
{
    if s.len() == 0 {
        seq![]
    } else {
        (match s[0] {
            Arg::Var(n) => seq!['$', '{'] + n + seq!['}'],
            Arg::Break => seq!['\n'],
            a => arg_text(a),
        }) + args_told(s.skip(1))
    }
}

pub open spec fn piece_told(v: PieceView) -> Seq<char> {
    match v.data {
        PieceDataView::Literal(s) => s,
        PieceDataView::Var(n) => seq!['$', '{'] + n.name + seq!['}'],
        _ => seq!['?'],
    }
}

pub open spec fn pieces_told(v: Seq<PieceView>) -> Seq<char>
    decreases v.len(),
{
    if v.len() == 0 {
        seq![]
    } else {
        piece_told(v[0]) + pieces_told(v.skip(1))
    }
}

/// A name without a dot.
pub open spec fn is_simple(n: Seq<char>) -> bool {
    is_name(n) && forall|k: int| 0 <= k < n.len() ==> #[trigger] n[k] != '.'
}

/// A character that stands for itself between quotes. A closing parenthesis does.
pub open spec fn inside_code(ch: char, double: bool) -> bool {
    ch != '\n' && ch != '\r' && ch != '$' && ch != quote_of(double) && (double ==> ch != '\\')
}

pub open spec fn arg_ok(a: Arg) -> bool {
    match a {
        Arg::Blank(ch) => blank_code(ch),
        Arg::Break => true,
        Arg::Char(ch) => {
            &&& !blank_code(ch) && ch != '\r' && ch != '$' && ch != ')'
            &&& ch != '\'' && ch != '"' && ch != '\\'
        },
        Arg::Escaped(ch) => ch != '\n' && ch != '\r' && ch != '$',
        Arg::Quoted(double, s) => forall|k: int|
            0 <= k < s.len() ==> inside_code(#[trigger] s[k], double),
        Arg::Var(n) => is_simple(n),
        Arg::Braced(n) => is_name(n),
    }
}

pub open spec fn parts(a: Arg) -> bool {
    a is Blank || a is Break
}

pub open spec fn expands(a: Arg) -> bool {
    a is Var || a is Braced
}

/// Each expansion stands alone: white space or nothing is on either side of it. `apart`
/// says that white space, or nothing, stands before the first part.
pub open spec fn args_ok(s: Seq<Arg>, apart: bool) -> bool
    decreases s.len(),
{
    s.len() > 0 ==> {
        &&& arg_ok(s[0])
        &&& expands(s[0]) ==> apart && (s.len() > 1 ==> parts(s[1]))
        &&& args_ok(s.skip(1), parts(s[0]))
    }
}

// -------------------------------------------------------------------- reading

#[verifier::opaque]
spec fn mark(c: Cursor, q: QuoteState) -> Dollar {
    dollar(c, q, true)
}

/// The stretch whose plain characters begin at `c0`, and have been read up to `c`.
spec fn stretch(c0: Cursor, c: Cursor, q: QuoteState) -> EvalStep {
    let (d, r) = literal(c, q, func_rules());
    eval_stretch(c0, d, r, func_rules(), mark(d, r))
}

/// That stretch, and all that follows.
#[verifier::opaque]
spec fn going(c0: Cursor, c: Cursor, q: QuoteState) -> EvalRun {
    let s = stretch(c0, c, q);
    if s.more is Some {
        let rest = begun(s.next, s.more->0);
        EvalRun {
            pieces: s.pieces + rest.pieces,
            next: rest.next,
            errors: s.errors + rest.errors,
        }
    } else {
        EvalRun { pieces: s.pieces, next: s.next, errors: s.errors }
    }
}

#[verifier::opaque]
spec fn begun(c: Cursor, q: QuoteState) -> EvalRun {
    eval_from(c, q, func_rules())
}

proof fn lemma_begun(c: Cursor, q: QuoteState)
    requires
        c.wf(),
    ensures
        begun(c, q) == going(c, c, q),
{
    reveal(begun);
    reveal(going);
    reveal(mark);
    lemma_eval_step(c, q, func_rules());
}

proof fn lemma_going_char(c0: Cursor, c: Cursor, q: QuoteState, ch: char)
    requires
        c.peek() == Some(ch),
        !ends_literal(ch, q, func_rules()),
    ensures
        going(c0, c, q) == going(c0, c.skip(1), q.after(ch)),
{
    reveal(going);
}

proof fn lemma_dot(ch: char)
    ensures
        ch as u32 == 0x2e <==> ch == '.',
{
}

/// A simple name ends where no character of one follows.
proof fn lemma_simple_name(c: Cursor, n: Seq<char>, tail: Seq<char>)
    requires
        ahead(c, n + tail),
        is_simple(n),
        tail.len() > 0 ==> !name_code(tail[0]) || tail[0] == '.',
    ensures
        ({
            let d = c.skip(n.len() as int);
            &&& varname(c, true).0.name == n
            &&& varname(c, true).1 == d
            &&& varname(c, true).0.valid()
        }),
{
    let d = c.skip(n.len() as int);
    lemma_ahead(c, n, tail);
    assert forall|k: int| c.at <= k < d.at implies name_chars(true)(#[trigger] c.text[k]) by {
        let i = k - c.at;
        assert(name_code(n[i]) && n[i] != '.');
        lemma_dot(n[i]);
        assert(c.text[c.at + i] == n[i]);
        law_characters_of_names(c.text[k], true);
    }
    if tail.len() > 0 {
        law_characters_of_names(tail[0], true);
        lemma_dot(tail[0]);
    }
    lemma_scan_is(c, name_chars(true), d);
    lemma_invalid_name(c, true);
}

/// `$name`: it is an expansion that ends with the name.
proof fn lemma_mark_var(c: Cursor, q: QuoteState, n: Seq<char>, tail: Seq<char>)
    requires
        ahead(c, seq!['$'] + n + tail),
        is_simple(n),
        tail.len() > 0 ==> !name_code(tail[0]) || tail[0] == '.',
    ensures
        c.sees('$'),
        ({
            let x = mark(c, q);
            let d = c.skip(1 + n.len() as int);
            &&& x.next == d
            &&& ahead(d, tail)
            &&& x.pieces.len() == 1
            &&& x.pieces[0].data is Var
            &&& x.pieces[0].data->Var_0.name == n
            &&& x.pieces[0].span == c.to(d)
            &&& x.quote == q.in_word()
            &&& q.blank && q.mode == QuoteMode::Unquoted ==> x.errors.len() == 0
            &&& !q.blank ==> x.errors.len() > 0 && asks_for(
                x.errors[0],
                "an expansion must be preceded by whitespace"@,
                c.offset(),
                if q.escape {
                    seq!['\\', ' ']
                } else {
                    seq![' ']
                },
            )
            &&& q.mode != QuoteMode::Unquoted ==> x.errors.len() > 0 && x.errors.last().title
                == "cannot expand inside quotes"@ && x.errors.last().marks.len() == 1
                && x.errors.last().marks[0].span == c.to(d)
        }),
{
    reveal(mark);
    reveal(expected_error);
    reveal(quoted_expansion_error);
    reveal_strlit(" ");
    reveal_strlit("\\ ");
    assert(" "@ =~= seq![' ']);
    assert("\\ "@ =~= seq!['\\', ' ']);
    let s = seq!['$'] + n + tail;
    assert(s =~= seq!['$'] + (n + tail));
    lemma_peek(c, s);
    lemma_ahead(c, seq!['$'], n + tail);
    let e = c.skip(1);
    assert(name_code(n[0]));
    lemma_peek(e, n + tail);
    assert((n + tail)[0] == n[0]);
    lemma_simple_name(e, n, tail);
    lemma_ahead(e, n, tail);
    assert(e.skip(n.len() as int) == c.skip(1 + n.len() as int));
    assert(dollar(c, q, true) == expansion(c, q, true));
}

/// `${name}`
proof fn lemma_mark_braced(c: Cursor, q: QuoteState, n: Seq<char>, tail: Seq<char>)
    requires
        ahead(c, seq!['$', '{'] + n + seq!['}'] + tail),
        is_name(n),
        q.blank,
        q.mode == QuoteMode::Unquoted,
    ensures
        c.sees('$'),
        ({
            let x = mark(c, q);
            let d = c.skip(3 + n.len() as int);
            &&& x.next == d
            &&& ahead(d, tail)
            &&& x.pieces.len() == 1
            &&& x.pieces[0].data is Var
            &&& x.pieces[0].data->Var_0.name == n
            &&& x.quote == q.in_word()
            &&& x.errors.len() == 0
        }),
{
    reveal(mark);
    let s = seq!['$', '{'] + n + seq!['}'] + tail;
    let t = seq!['}'] + tail;
    assert(s =~= seq!['$', '{'] + (n + t));
    lemma_peek(c, s);
    lemma_ahead(c, seq!['$', '{'], n + t);
    let e = c.skip(2);
    lemma_name(e, n, t);
    lemma_ahead(e, n, t);
    let f = e.skip(n.len() as int);
    lemma_ahead(f, seq!['}'], tail);
    assert(c.skip(1).skip(1) == e);
    assert(f.skip(1) == c.skip(3 + n.len() as int));
    assert(dollar(c, q, true) == expansion(c, q, true));
}

spec fn unquoted(q: QuoteState) -> bool {
    q.mode == QuoteMode::Unquoted && !q.escape
}

/// Where a sign stands, the stretch ends.
proof fn lemma_going_sign(c0: Cursor, c: Cursor, q: QuoteState)
    requires
        c.wf(),
        c0.reaches(c),
        c.sees('$'),
        mark(c, q).next.wf(),
    ensures
        ({
            let x = mark(c, q);
            let rest = going(x.next, x.next, x.quote);
            let lit = if c0.at < c.at {
                seq![crate::grammar::lit_piece(c0.to(c), c0.text_to(c))]
            } else {
                seq![]
            };
            going(c0, c, q) == (EvalRun {
                pieces: lit + x.pieces + rest.pieces,
                next: rest.next,
                errors: x.errors + rest.errors,
            })
        }),
{
    reveal(going);
    lemma_begun(mark(c, q).next, mark(c, q).quote);
    assert(func_rules().stop =~= seq![')']);
    assert(!func_rules().stop.contains('$')) by {
        assert(forall|i: int| 0 <= i < 1 ==> #[trigger] func_rules().stop[i] == ')');
    }
}

proof fn lemma_told_join(a: Seq<PieceView>, b: Seq<PieceView>)
    ensures
        pieces_told(a + b) == pieces_told(a) + pieces_told(b),
    decreases a.len(),
{
    if a.len() == 0 {
        assert(a + b =~= b);
        assert(pieces_told(a) + pieces_told(b) =~= pieces_told(b));
    } else {
        lemma_told_join(a.skip(1), b);
        assert((a + b).skip(1) =~= a.skip(1) + b);
        assert(pieces_told(a + b) =~= pieces_told(a) + pieces_told(b));
    }
}

proof fn lemma_told_one(p: PieceView)
    ensures
        pieces_told(seq![p]) == piece_told(p),
{
    reveal_with_fuel(pieces_told, 2);
    assert(pieces_told(seq![p]) =~= piece_told(p));
}

/// What is read from `c` on, where the plain characters began at `c0`.
spec fn going_ok(r: EvalRun, c0: Cursor, c: Cursor, s: Seq<Arg>, tail: Seq<char>) -> bool {
    let v = r.pieces;
    &&& r.errors.len() == 0
    &&& ahead(r.next, seq![')'] + tail)
    &&& r.next.text == c.text
    &&& pieces_told(v) == c0.text_to(c) + args_told(s)
    &&& forall|i: int| !(#[trigger] stuck_at(v, i))
    &&& c0.at < c.at ==> v.len() > 0 && v[0].data is Literal && v[0].data->Literal_0.len() > 0
        && v[0].data->Literal_0[0] == c.text[c0.at]
    &&& c0 == c && s.len() > 0 && parts(s[0]) ==> v.len() > 0 && v[0].data is Literal
        && v[0].data->Literal_0.len() > 0 && blank_code(v[0].data->Literal_0[0])
    &&& c0 == c && s.len() == 0 ==> v.len() == 0
}

proof fn lemma_going_end(c0: Cursor, c: Cursor, q: QuoteState, tail: Seq<char>)
    requires
        c0.wf(),
        c0.reaches(c),
        ahead(c, seq![')'] + tail),
        unquoted(q),
    ensures
        going_ok(going(c0, c, q), c0, c, seq![], tail),
{
    reveal(going);
    lemma_peek(c, seq![')'] + tail);
    assert(func_rules().stop[0] == ')');
    assert(func_rules().stop.contains(')'));
    let r = going(c0, c, q);
    if c0.at < c.at {
        lemma_told_one(r.pieces[0]);
        assert(r.pieces =~= seq![r.pieces[0]]);
        assert(c0.text_to(c) + args_told(seq![]) =~= c0.text_to(c));
    } else {
        assert(c0.text_to(c) + args_told(seq![]) =~= seq![]);
    }
}

/// The state behind a line break, which a backslash before it keeps from parting words.
spec fn behind_break(q: QuoteState) -> QuoteState {
    QuoteState { blank: q.blank || !q.escape, ..q.in_word() }
}

/// A line break is a part of its own.
proof fn lemma_going_feed(c0: Cursor, c: Cursor, q: QuoteState)
    requires
        c.wf(),
        c0.reaches(c),
        c.newline() > 0,
    ensures
        ({
            let n = c.newline();
            let lit = if c0.at < c.at {
                seq![crate::grammar::lit_piece(c0.to(c), c0.text_to(c))]
            } else {
                seq![]
            };
            let feed = crate::grammar::lit_piece(c.to(c.skip(n)), seq!['\n']);
            let rest = going(c.skip(n), c.skip(n), behind_break(q));
            going(c0, c, q) == (EvalRun {
                pieces: lit + seq![feed] + rest.pieces,
                next: rest.next,
                errors: rest.errors,
            })
        }),
{
    reveal(going);
    reveal_strlit("\n");
    assert("\n"@ =~= seq!['\n']);
    let n = c.newline();
    lemma_begun(c.skip(n), behind_break(q));
    let rest = going(c.skip(n), c.skip(n), behind_break(q));
    assert(Seq::<ErrorView>::empty() + rest.errors =~= rest.errors);
}

/// Parts that were read before the rest, where the last of them leaves it room.
proof fn lemma_going_join(
    r: EvalRun,
    c0: Cursor,
    c: Cursor,
    s: Seq<Arg>,
    tail: Seq<char>,
    p: PieceView,
    d: Cursor,
    rest: EvalRun,
)
    requires
        c0.wf(),
        c0.reaches(c),
        d.wf(),
        d.text == c.text,
        s.len() > 0,
        going_ok(rest, d, d, s.skip(1), tail),
        r.errors.len() == 0,
        r.next == rest.next,
        r.pieces == (if c0.at < c.at {
            seq![crate::grammar::lit_piece(c0.to(c), c0.text_to(c))]
        } else {
            seq![]
        }) + seq![p] + rest.pieces,
        args_told(s) == piece_told(p) + args_told(s.skip(1)),
        p.data is Literal || (p.data is Var && (s.len() > 1 ==> parts(s[1]))),
        parts(s[0]) ==> p.data is Literal && p.data->Literal_0.len() > 0 && blank_code(
            p.data->Literal_0[0],
        ),
    ensures
        going_ok(r, c0, c, s, tail),
{
    let lit = if c0.at < c.at {
        seq![crate::grammar::lit_piece(c0.to(c), c0.text_to(c))]
    } else {
        seq![]
    };
    let v = r.pieces;
    let head = lit + seq![p];
    lemma_told_join(head, rest.pieces);
    lemma_told_join(lit, seq![p]);
    lemma_told_one(p);
    assert(d.text_to(d) =~= seq![]);
    assert(d.text_to(d) + args_told(s.skip(1)) =~= args_told(s.skip(1)));
    if c0.at < c.at {
        lemma_told_one(lit[0]);
        assert(v[0] == lit[0]);
    } else {
        assert(c0.text_to(c) =~= seq![]);
        assert(pieces_told(lit) =~= seq![]);
        assert(v[0] == p);
    }
    assert(pieces_told(v) =~= c0.text_to(c) + args_told(s));
    let m = lit.len() as int;
    assert(v[m] == p);
    assert forall|i: int| !(#[trigger] stuck_at(v, i)) by {
        if stuck_at(v, i) {
            if i < m {
                assert(v[i] == lit[i]);
            } else if i == m {
                assert(v[m + 1] == rest.pieces[0]);
                if s.len() > 1 {
                    assert(s.skip(1)[0] == s[1]);
                }
            } else {
                assert(v[i] == rest.pieces[i - m - 1] && v[i + 1] == rest.pieces[i - m]);
                assert(stuck_at(rest.pieces, i - m - 1));
            }
        }
    }
}

proof fn lemma_going_of(c0: Cursor, c: Cursor, q: QuoteState, s: Seq<Arg>, tail: Seq<char>)
    requires
        c0.wf(),
        c0.reaches(c),
        ahead(c, args_text(s) + (seq![')'] + tail)),
        args_ok(s, q.blank),
        unquoted(q),
    ensures
        going_ok(going(c0, c, q), c0, c, s, tail),
    decreases s.len(), 1nat,
{
    let end = seq![')'] + tail;
    if s.len() == 0 {
        assert(args_text(s) + end =~= end);
        assert(s =~= seq![]);
        lemma_going_end(c0, c, q, tail);
    } else {
        let rest = s.skip(1);
        let after = args_text(rest) + end;
        assert(args_text(s) + end =~= arg_text(s[0]) + after);
        lemma_ahead(c, arg_text(s[0]), after);
        lemma_peek(c, arg_text(s[0]) + after);
        assert(rest.len() > 0 ==> rest[0] == s[1]);
        assert(args_ok(rest, parts(s[0])));
        match s[0] {
            Arg::Blank(ch) => {
                law_characters_between_words(ch);
                if ch == '\n' {
                    let q2 = behind_break(q);
                    let feed = crate::grammar::lit_piece(c.to(c.skip(1)), seq!['\n']);
                    lemma_going_feed(c0, c, q);
                    lemma_going_of(c.skip(1), c.skip(1), q2, rest, tail);
                    lemma_going_join(
                        going(c0, c, q),
                        c0,
                        c,
                        s,
                        tail,
                        feed,
                        c.skip(1),
                        going(c.skip(1), c.skip(1), q2),
                    );
                } else {
                    lemma_char_of(c0, c, q, s, tail, ch);
                }
            },
            Arg::Break => {
                let q2 = behind_break(q);
                let feed = crate::grammar::lit_piece(c.to(c.skip(2)), seq!['\n']);
                assert(c.newline() == 2);
                lemma_going_feed(c0, c, q);
                lemma_going_of(c.skip(2), c.skip(2), q2, rest, tail);
                lemma_going_join(
                    going(c0, c, q),
                    c0,
                    c,
                    s,
                    tail,
                    feed,
                    c.skip(2),
                    going(c.skip(2), c.skip(2), q2),
                );
            },
            Arg::Char(ch) => {
                law_characters_between_words(ch);
                lemma_char_of(c0, c, q, s, tail, ch);
            },
            Arg::Escaped(ch) => {
                let text = seq!['\\', ch];
                assert(c.skip(1).skip(1) == c.skip(2));
                lemma_plain_stop('\\');
                lemma_going_char(c0, c, q, '\\');
                let q1 = q.after('\\');
                lemma_going_char(c0, c.skip(1), q1, ch);
                lemma_going_of(c0, c.skip(2), q1.after(ch), rest, tail);
                lemma_going_back(c0, c, q, s, tail, text);
            },
            Arg::Quoted(double, t) => {
                let quote = quote_of(double);
                let text = arg_text(s[0]);
                let q1 = q.after(quote);
                let inside = t + (seq![quote] + after);
                assert(text + after =~= seq![quote] + inside);
                lemma_ahead(c, seq![quote], inside);
                lemma_plain_stop(quote);
                lemma_going_char(c0, c, q, quote);
                lemma_inside(c0, c.skip(1), q1, double, t, seq![quote] + after);
                let d = c.skip(1).skip(t.len() as int);
                lemma_ahead(c.skip(1), t, seq![quote] + after);
                lemma_ahead(d, seq![quote], after);
                lemma_going_char(c0, d, q1, quote);
                assert(d.skip(1) == c.skip(text.len() as int));
                lemma_going_of(c0, d.skip(1), q1.after(quote), rest, tail);
                lemma_going_back(c0, c, q, s, tail, text);
            },
            Arg::Var(n) => {
                assert(after.len() > 0 && !name_code(after[0])) by {
                    lemma_after(rest, end);
                }
                assert(arg_text(s[0]) + after =~= seq!['$'] + n + after);
                lemma_mark_var(c, q, n, after);
                let x = mark(c, q);
                lemma_going_sign(c0, c, q);
                lemma_going_of(x.next, x.next, x.quote, rest, tail);
                let r = going(x.next, x.next, x.quote);
                assert(x.pieces =~= seq![x.pieces[0]]);
                lemma_going_join(going(c0, c, q), c0, c, s, tail, x.pieces[0], x.next, r);
            },
            Arg::Braced(n) => {
                assert(arg_text(s[0]) + after =~= seq!['$', '{'] + n + seq!['}'] + after);
                lemma_mark_braced(c, q, n, after);
                let x = mark(c, q);
                lemma_going_sign(c0, c, q);
                lemma_going_of(x.next, x.next, x.quote, rest, tail);
                let r = going(x.next, x.next, x.quote);
                assert(x.pieces =~= seq![x.pieces[0]]);
                lemma_going_join(going(c0, c, q), c0, c, s, tail, x.pieces[0], x.next, r);
            },
        }
    }
}

proof fn lemma_plain_stop(ch: char)
    requires
        ch != ')',
    ensures
        !func_rules().stop.contains(ch),
{
    assert(forall|i: int| 0 <= i < 1 ==> #[trigger] func_rules().stop[i] == ')');
}

/// Between quotes all characters go with the stretch.
proof fn lemma_inside(
    c0: Cursor,
    c: Cursor,
    q: QuoteState,
    double: bool,
    t: Seq<char>,
    tail: Seq<char>,
)
    requires
        ahead(c, t + tail),
        q.mode == (if double {
            QuoteMode::DoubleQuoted
        } else {
            QuoteMode::SingleQuoted
        }),
        !q.escape,
        !q.blank,
        forall|k: int| 0 <= k < t.len() ==> inside_code(#[trigger] t[k], double),
    ensures
        going(c0, c, q) == going(c0, c.skip(t.len() as int), q),
    decreases t.len(),
{
    if t.len() > 0 {
        let t1 = t.skip(1);
        assert(inside_code(t[0], double));
        assert(t + tail =~= seq![t[0]] + (t1 + tail));
        lemma_peek(c, t + tail);
        lemma_ahead(c, seq![t[0]], t1 + tail);
        lemma_going_char(c0, c, q, t[0]);
        assert(q.after(t[0]) == q);
        assert forall|k: int| 0 <= k < t1.len() implies inside_code(#[trigger] t1[k], double) by {
            assert(t1[k] == t[k + 1]);
        }
        lemma_inside(c0, c.skip(1), q, double, t1, tail);
        assert(c.skip(1).skip(t1.len() as int) == c.skip(t.len() as int));
    } else {
        assert(c.skip(0) == c);
    }
}

/// Characters that went with the stretch are said as they stand.
proof fn lemma_going_back(
    c0: Cursor,
    c: Cursor,
    q: QuoteState,
    s: Seq<Arg>,
    tail: Seq<char>,
    text: Seq<char>,
)
    requires
        c0.wf(),
        c0.reaches(c),
        c.at + text.len() <= c.text.len(),
        c.text_to(c.skip(text.len() as int)) == text,
        text.len() > 0,
        s.len() > 0,
        !parts(s[0]),
        args_told(s) == text + args_told(s.skip(1)),
        going_ok(going(c0, c, q), c0, c.skip(text.len() as int), s.skip(1), tail),
    ensures
        going_ok(going(c0, c, q), c0, c, s, tail),
{
    let d = c.skip(text.len() as int);
    assert(c0.text_to(d) =~= c0.text_to(c) + text);
    assert(c0.text_to(d) + args_told(s.skip(1)) =~= c0.text_to(c) + args_told(s));
}

proof fn lemma_after(rest: Seq<Arg>, end: Seq<char>)
    requires
        rest.len() > 0 ==> parts(rest[0]) && arg_ok(rest[0]),
        end.len() > 0,
        end[0] == ')',
    ensures
        (args_text(rest) + end).len() > 0,
        !name_code((args_text(rest) + end)[0]),
{
    let t = args_text(rest) + end;
    if rest.len() > 0 {
        assert(t[0] == arg_text(rest[0])[0]);
    } else {
        assert(t =~= end);
    }
}

/// A plain character is a part of the stretch.
proof fn lemma_char_of(
    c0: Cursor,
    c: Cursor,
    q: QuoteState,
    s: Seq<Arg>,
    tail: Seq<char>,
    ch: char,
)
    requires
        c0.wf(),
        c0.reaches(c),
        ahead(c, args_text(s) + (seq![')'] + tail)),
        s.len() > 0,
        args_ok(s, q.blank),
        unquoted(q),
        s[0] == Arg::Blank(ch) || s[0] == Arg::Char(ch),
        ch != '\n',
        c.peek() == Some(ch),
    ensures
        going_ok(going(c0, c, q), c0, c, s, tail),
    decreases s.len(), 0nat,
{
    let end = seq![')'] + tail;
    let rest = s.skip(1);
    let after = args_text(rest) + end;
    law_characters_between_words(ch);
    assert(args_text(s) + end =~= seq![ch] + after);
    lemma_ahead(c, seq![ch], after);
    assert(!func_rules().stop.contains(ch)) by {
        assert(forall|i: int| 0 <= i < 1 ==> #[trigger] func_rules().stop[i] == ')');
    }
    lemma_going_char(c0, c, q, ch);
    lemma_going_of(c0, c.skip(1), q.after(ch), rest, tail);
    let r = going(c0, c, q);
    assert(c0.text_to(c.skip(1)) =~= c0.text_to(c) + seq![ch]);
    assert(args_told(s) == seq![ch] + args_told(rest));
    assert(c0.text_to(c.skip(1)) + args_told(rest) =~= c0.text_to(c) + args_told(s));
}

/// The text of a call in which expansions stand alone, between spaces, tabs, line feeds
/// and the ends of the text, is read without an error, up to the parenthesis, and says
/// what stands there. `$name` says what `${name}` says.
pub proof fn law_plain_call_is_read(c: Cursor, s: Seq<Arg>, tail: Seq<char>)
    requires
        c.wf(),
        c.rest() == args_text(s) + (seq![')'] + tail),
        args_ok(s, true),
    ensures
        ({
            let p = eval_string(c, func_rules());
            &&& p.errors.len() == 0
            &&& p.next.rest() == seq![')'] + tail
            &&& pieces_told(p.value.pieces) == args_told(s)
        }),
{
    let q = QuoteState::initial();
    lemma_going_of(c, c, q, s, tail);
    lemma_begun(c, q);
    reveal(begun);
    assert(c.text_to(c) =~= seq![]);
    assert(c.text_to(c) + args_told(s) =~= args_told(s));
    law_expansions_end_words(c);
    let p = eval_string(c, func_rules());
    if p.errors.len() > 0 {
        assert(white_missing(p.errors[0], p.value.pieces));
    }
}

/// Where anything but white space, another expansion or the end of the call stands right
/// behind `$name`, white space is asked for there.
pub proof fn law_expansion_must_be_followed_by_white_space(
    c: Cursor,
    n: Seq<char>,
    ch: char,
    tail: Seq<char>,
)
    requires
        c.wf(),
        c.rest() == seq!['$'] + n + (seq![ch] + tail),
        is_simple(n),
        !name_code(ch) || ch == '.',
        !blank_code(ch) && ch != '\r' && ch != '$' && ch != ')',
    ensures
        white_asked_for(
            eval_string(c, func_rules()).errors,
            c.skip(1 + n.len() as int).offset(),
        ),
{
    let q = QuoteState::initial();
    let after = seq![ch] + tail;
    lemma_mark_var(c, q, n, after);
    lemma_going_sign(c, c, q);
    lemma_begun(c, q);
    reveal(begun);
    let x = mark(c, q);
    let d = x.next;
    lemma_peek(d, after);
    lemma_starts_with(d, x.quote, ch);
    let p = eval_string(c, func_rules());
    let v = p.value.pieces;
    let rest = going(d, d, x.quote).pieces;
    assert(v =~= x.pieces + rest);
    assert(v[0] == x.pieces[0] && v[1] == rest[0]);
    law_expansions_end_words(c);
    assert(stuck_at(v, 0));
    let m = eval_from(c, q, func_rules()).errors.len() as int;
    let more = p.errors.skip(m);
    let k = choose|k: int|
        0 <= k < more.len() && asks_for_white_behind(#[trigger] more[k], v[0].span.end);
    assert(p.errors[m + k] == more[k]);
}

/// What begins with a plain character begins with a literal part.
proof fn lemma_starts_with(d: Cursor, q: QuoteState, ch: char)
    requires
        d.wf(),
        d.peek() == Some(ch),
        ch != '\n' && ch != '\r' && ch != '$' && ch != ')',
    ensures
        ({
            let v = going(d, d, q).pieces;
            &&& v.len() > 0
            &&& v[0].data is Literal
            &&& v[0].data->Literal_0.len() > 0
            &&& v[0].data->Literal_0[0] == ch
        }),
{
    reveal(going);
    assert(!func_rules().stop.contains(ch)) by {
        assert(forall|i: int| 0 <= i < 1 ==> #[trigger] func_rules().stop[i] == ')');
    }
    lemma_literal(d.skip(1), q.after(ch), func_rules());
    let (e, r) = literal(d, q, func_rules());
    assert(e.at > d.at);
    assert(d.text_to(e)[0] == ch);
    let s = stretch(d, d, q);
    assert(s.pieces[0] == crate::grammar::lit_piece(d.to(e), d.text_to(e)));
}

/// Where anything but white space stands right before `$name`, white space is asked for
/// there, and inside quotes the expansion is refused.
pub proof fn law_expansion_must_be_preceded_by_white_space(
    c: Cursor,
    ch: char,
    n: Seq<char>,
    tail: Seq<char>,
)
    requires
        c.wf(),
        c.rest() == seq![ch] + (seq!['$'] + n + tail),
        is_simple(n),
        tail.len() > 0 ==> !name_code(tail[0]) || tail[0] == '.',
        !blank_code(ch) && ch != '\r' && ch != '$' && ch != ')',
    ensures
        ({
            let errors = eval_string(c, func_rules()).errors;
            let at = c.skip(1);
            &&& ch != '\\' ==> exists|k: int|
                0 <= k < errors.len() && asks_for(
                    #[trigger] errors[k],
                    "an expansion must be preceded by whitespace"@,
                    at.offset(),
                    seq![' '],
                )
            &&& ch == '"' || ch == '\'' ==> exists|k: int|
                0 <= k < errors.len() && (#[trigger] errors[k]).title
                    == "cannot expand inside quotes"@ && errors[k].marks.len() == 1
                    && errors[k].marks[0].span == at.to(at.skip(1 + n.len() as int))
        }),
{
    let q = QuoteState::initial();
    let after = seq!['$'] + n + tail;
    lemma_peek(c, seq![ch] + after);
    lemma_ahead(c, seq![ch], after);
    law_characters_between_words(ch);
    assert(!func_rules().stop.contains(ch)) by {
        assert(forall|i: int| 0 <= i < 1 ==> #[trigger] func_rules().stop[i] == ')');
    }
    let d = c.skip(1);
    let r = q.after(ch);
    lemma_begun(c, q);
    lemma_going_char(c, c, q, ch);
    lemma_mark_var(d, r, n, tail);
    lemma_going_sign(c, d, r);
    reveal(begun);
    let x = mark(d, r);
    let errors = eval_string(c, func_rules()).errors;
    assert(forall|k: int| 0 <= k < x.errors.len() ==> errors[k] == x.errors[k]);
    if x.errors.len() > 0 {
        assert(errors[0] == x.errors[0]);
        assert(errors[x.errors.len() - 1] == x.errors.last());
    }
}

/// A carriage return in a call, without a line feed, is an error.
pub proof fn law_naked_return_in_a_call(c: Cursor, tail: Seq<char>)
    requires
        c.wf(),
        c.rest() == seq!['\r'] + tail,
        tail.len() == 0 || tail[0] != '\n',
    ensures
        ({
            let errors = eval_string(c, func_rules()).errors;
            &&& errors.len() > 0
            &&& errors[0].title == "naked carriage returns aren't supported"@
            &&& errors[0].marks.len() == 1
            &&& errors[0].marks[0].span == c.skip(1).to(c.skip(1))
        }),
{
    reveal(going);
    reveal(plain_error);
    let q = QuoteState::initial();
    lemma_peek(c, seq!['\r'] + tail);
    lemma_plain_stop('\r');
    lemma_begun(c, q);
    reveal(begun);
    let s = stretch(c, c, q);
    assert(s.errors.len() == 1);
    assert(eval_string(c, func_rules()).errors[0] == s.errors[0]);
}

/// A line feed behind a backslash parts no words: right behind it an expansion is not yet
/// a word of its own.
pub proof fn law_escaped_line_feed_parts_no_words(
    c: Cursor,
    ch: char,
    n: Seq<char>,
    tail: Seq<char>,
)
    requires
        c.wf(),
        c.rest() == seq![ch, '\\', '\n'] + (seq!['$'] + n + tail),
        is_simple(n),
        tail.len() > 0 ==> !name_code(tail[0]) || tail[0] == '.',
        arg_ok(Arg::Char(ch)),
    ensures
        exists|k: int|
            0 <= k < eval_string(c, func_rules()).errors.len() && asks_for(
                #[trigger] eval_string(c, func_rules()).errors[k],
                "an expansion must be preceded by whitespace"@,
                c.skip(3).offset(),
                seq![' '],
            ),
{
    let q = QuoteState::initial();
    let after = seq!['$'] + n + tail;
    let head = seq![ch, '\\', '\n'];
    lemma_peek(c, head + after);
    lemma_ahead(c, head, after);
    assert(c.text[c.at + 2] == head[2]);
    law_characters_between_words(ch);
    lemma_plain_stop(ch);
    lemma_plain_stop('\\');
    let q1 = q.after(ch);
    let q2 = q1.after('\\');
    let d = c.skip(1).skip(1);
    assert(d == c.skip(2));
    lemma_begun(c, q);
    lemma_going_char(c, c, q, ch);
    lemma_going_char(c, c.skip(1), q1, '\\');
    lemma_going_feed(c, d, q2);
    let e = d.skip(1);
    assert(e == c.skip(3));
    let q3 = behind_break(q2);
    lemma_mark_var(e, q3, n, tail);
    lemma_going_sign(e, e, q3);
    reveal(begun);
    let x = mark(e, q3);
    let errors = eval_string(c, func_rules()).errors;
    assert(errors[0] == x.errors[0]);
}

} // verus!
