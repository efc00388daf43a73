//! Files in the plain form: what is read of them, and what is written.
//!
//! A plain file is given by what it says. How it is spelled is stated here character by
//! character, apart from the grammar and from the way in which trees are written.

use vstd::prelude::*;

use crate::ast::{EvalStringView, PieceDataView, PieceView, VarnameView};
use crate::code::Cursor;
use crate::error::plain_error;
use crate::grammar::{
    blanks, dollar, eval_from, eval_step, eval_stretch, expansion, lemma_scan_is, line_rules,
    literal, name_char, name_chars, path_rules, quoted, quoted_value, varname, whitespace, Dollar,
    EvalRules, EvalRun, EvalStep, QuoteState,
};
use crate::list::QuoteMode;
use crate::progress::{lemma_eval_step, lemma_invalid_name};
use crate::syntax::{line_value, path, paths, paths_from};
use crate::text::{lemma_offset_step, offset_of, white_space, width};

verus! {

// ----------------------------------------------------------------- characters

/// The characters of a name, by their codes: letters, digits, `_`, `-` and `.`.
pub open spec fn name_code(ch: char) -> bool {
    let n = ch as u32;
    0x41 <= n <= 0x5a || 0x61 <= n <= 0x7a || 0x30 <= n <= 0x39 || n == 0x5f || n == 0x2d || n
        == 0x2e
}

/// White space, by its codes.
pub open spec fn white_code(ch: char) -> bool {
    let n = ch as u32;
    9 <= n <= 13 || n == 0x20 || n == 0x85 || n == 0xa0 || n == 0x1680 || 0x2000 <= n <= 0x200a
        || n == 0x2028 || n == 0x2029 || n == 0x202f || n == 0x205f || n == 0x3000
}

/// A name that is not missing.
pub open spec fn is_name(n: Seq<char>) -> bool {
    n.len() > 0 && forall|k: int| 0 <= k < n.len() ==> name_code(#[trigger] n[k])
}

pub open spec fn spaces(n: nat) -> Seq<char> {
    Seq::new(n, |i: int| ' ')
}

pub open spec fn breaks(n: nat) -> Seq<char> {
    Seq::new(n, |i: int| '\n')
}

// ----------------------------------------------------------------------- words

/// A part of a word.
pub enum Part {
    /// Characters that stand for themselves.
    Lit(Seq<char>),
    /// `${name}`
    Var(Seq<char>),
    /// `$"name"`
    Quoted(Seq<char>),
    /// `$$`
    Dollar,
    /// `$:`
    Colon,
}

/// The characters of a part.
pub open spec fn part_text(p: Part) -> Seq<char> {
    match p {
        Part::Lit(s) => s,
        Part::Var(n) => seq!['$', '{'] + n + seq!['}'],
        Part::Quoted(n) => seq!['$', '"'] + n + seq!['"'],
        Part::Dollar => seq!['$', '$'],
        Part::Colon => seq!['$', ':'],
    }
}

/// A path or a value.
pub open spec fn word_text(w: Seq<Part>) -> Seq<char>
    decreases w.len(),
{
    if w.len() == 0 {
        seq![]
    } else {
        part_text(w[0]) + word_text(w.skip(1))
    }
}

/// A character that means nothing else in a path or, where `path` does not hold, in a
/// value.
pub open spec fn plain_code(ch: char, path: bool) -> bool {
    &&& ch != '$' && ch != '\r' && ch != '\n'
    &&& path ==> ch != ' ' && ch != ':' && ch != '|'
}

pub open spec fn part_ok(p: Part, path: bool) -> bool {
    match p {
        Part::Lit(s) => {
            &&& s.len() > 0
            &&& forall|k: int| 0 <= k < s.len() ==> plain_code(#[trigger] s[k], path)
            &&& s != seq![':'] && s != seq!['|']
        },
        Part::Var(n) => is_name(n),
        Part::Quoted(n) => is_name(n),
        _ => true,
    }
}

/// The parts of a word can be told apart, and no white space stands before it.
pub open spec fn word_ok(w: Seq<Part>, path: bool) -> bool {
    &&& w.len() > 0
    &&& parts_ok(w, path)
    &&& w[0] matches Part::Lit(s) ==> !white_code(s[0])
}

pub open spec fn parts_ok(w: Seq<Part>, path: bool) -> bool {
    &&& forall|i: int| 0 <= i < w.len() ==> part_ok(#[trigger] w[i], path)
    &&& forall|i: int| 0 <= i < w.len() - 1 ==> !(#[trigger] w[i] is Lit && w[i + 1] is Lit)
}

/// What is read of a part.
pub open spec fn piece_is(v: PieceView, p: Part) -> bool {
    match p {
        Part::Lit(s) => v.data == PieceDataView::Literal(s),
        Part::Var(n) => v.data is Var && v.data->Var_0.name == n,
        Part::Quoted(n) => v.data is QuoteVar && v.data->QuoteVar_0.name == n,
        Part::Dollar => v.data is Literal && v.data->Literal_0 == seq!['$'],
        Part::Colon => v.data is Literal && v.data->Literal_0 == seq![':'],
    }
}

pub open spec fn pieces_are(v: Seq<PieceView>, w: Seq<Part>) -> bool {
    v.len() == w.len() && forall|i: int| 0 <= i < w.len() ==> piece_is(#[trigger] v[i], w[i])
}

/// What is read of a word.
pub open spec fn word_is(v: EvalStringView, w: Seq<Part>) -> bool {
    pieces_are(v.pieces, w)
}

// ------------------------------------------------------------ what lies ahead

/// `s` is the text ahead of `c`.
pub open spec fn ahead(c: Cursor, s: Seq<char>) -> bool {
    c.wf() && c.rest() == s
}

pub proof fn lemma_ahead(c: Cursor, a: Seq<char>, b: Seq<char>)
    requires
        ahead(c, a + b),
    ensures
        ahead(c.skip(a.len() as int), b),
        c.reaches(c.skip(a.len() as int)),
        c.text_to(c.skip(a.len() as int)) == a,
        forall|k: int| 0 <= k < a.len() ==> c.text[c.at + k] == #[trigger] a[k],
        b.len() > 0 ==> c.skip(a.len() as int).peek() == Some(b[0]),
        b.len() == 0 ==> c.skip(a.len() as int).at_end(),
{
    let d = c.skip(a.len() as int);
    assert(c.rest().len() == a.len() + b.len());
    assert forall|k: int| 0 <= k < a.len() implies c.text[c.at + k] == #[trigger] a[k] by {
        assert(c.rest()[k] == (a + b)[k]);
    }
    assert(d.rest() =~= b) by {
        assert forall|k: int| 0 <= k < b.len() implies d.rest()[k] == b[k] by {
            assert(c.rest()[a.len() + k] == (a + b)[a.len() + k]);
        }
    }
    assert(c.text_to(d) =~= a);
    if b.len() > 0 {
        assert(d.rest()[0] == b[0]);
    }
}

/// What lies ahead of `c` begins with `s`.
pub proof fn lemma_peek(c: Cursor, s: Seq<char>)
    requires
        ahead(c, s),
    ensures
        s.len() > 0 ==> c.peek() == Some(s[0]),
        s.len() > 1 ==> c.skip(1).peek() == Some(s[1]),
        s.len() == 0 ==> c.at_end(),
        s.len() <= 1 ==> c.skip(1).at_end(),
{
    assert(c.rest().len() == s.len());
    if s.len() > 0 {
        assert(c.rest()[0] == s[0]);
    }
    if s.len() > 1 {
        assert(c.rest()[1] == s[1]);
    }
}

/// A name is made of letters, digits, `_`, `-` and, unless it is simple, `.`.
pub proof fn law_characters_of_names(ch: char, simple: bool)
    ensures
        name_char(ch, simple) <==> name_code(ch) && !(simple && ch as u32 == 0x2e),
{
}

/// A name ends where no character of a name follows.
pub proof fn lemma_name(c: Cursor, n: Seq<char>, tail: Seq<char>)
    requires
        ahead(c, n + tail),
        is_name(n),
        tail.len() > 0 ==> !name_code(tail[0]),
    ensures
        ({
            let d = c.skip(n.len() as int);
            &&& varname(c, false) == (VarnameView { name: n, span: c.to(d) }, d)
            &&& VarnameView { name: n, span: c.to(d) }.valid()
        }),
{
    let d = c.skip(n.len() as int);
    lemma_ahead(c, n, tail);
    assert forall|k: int| c.at <= k < d.at implies name_chars(false)(#[trigger] c.text[k]) by {
        let i = k - c.at;
        assert(name_code(n[i]));
        assert(c.text[c.at + i] == n[i]);
        law_characters_of_names(c.text[k], false);
    }
    if tail.len() > 0 {
        law_characters_of_names(tail[0], false);
    }
    lemma_scan_is(c, name_chars(false), d);
    lemma_invalid_name(c, false);
}

// ------------------------------------------------------- texts with variables

spec fn calm(q: QuoteState) -> bool {
    q.mode == QuoteMode::Unquoted && !q.escape
}

#[verifier::opaque]
spec fn sign(c: Cursor, q: QuoteState) -> Dollar {
    dollar(c, q, false)
}

#[verifier::opaque]
spec fn stretch(c: Cursor, q: QuoteState, path: bool) -> EvalStep {
    eval_step(c, q, rules_for(path))
}

#[verifier::opaque]
spec fn whole(c: Cursor, q: QuoteState, path: bool) -> EvalRun {
    eval_from(c, q, rules_for(path))
}

proof fn lemma_stretch(c: Cursor, q: QuoteState, path: bool)
    ensures
        ({
            let (d, r) = literal(c, q, rules_for(path));
            stretch(c, q, path) == eval_stretch(c, d, r, rules_for(path), sign(d, r))
        }),
{
    reveal(stretch);
    reveal(sign);
}

proof fn lemma_whole(c: Cursor, q: QuoteState, path: bool)
    requires
        c.wf(),
    ensures
        ({
            let s = stretch(c, q, path);
            match s.more {
                None => whole(c, q, path) == (EvalRun {
                    pieces: s.pieces,
                    next: s.next,
                    errors: s.errors,
                }),
                Some(q2) => {
                    let rest = whole(s.next, q2, path);
                    whole(c, q, path) == (EvalRun {
                        pieces: s.pieces + rest.pieces,
                        next: rest.next,
                        errors: s.errors + rest.errors,
                    })
                },
            }
        }),
{
    reveal(stretch);
    reveal(whole);
    lemma_eval_step(c, q, rules_for(path));
}

proof fn lemma_dollar_part(c: Cursor, q: QuoteState, p: Part, tail: Seq<char>)
    requires
        ahead(c, part_text(p) + tail),
        p !is Lit,
        part_ok(p, false),
        calm(q),
    ensures
        ({
            let x = sign(c, q);
            &&& c.sees('$')
            &&& x.next == c.skip(part_text(p).len() as int)
            &&& x.errors.len() == 0
            &&& x.pieces.len() == 1
            &&& piece_is(x.pieces[0], p)
            &&& calm(x.quote)
        }),
{
    reveal(sign);
    let t = part_text(p);
    let x = dollar(c, q, false);
    let e = c.skip(1);
    lemma_ahead(c, t, tail);
    assert(c.text[c.at] == t[0]);
    assert(c.text[c.at + 1] == t[1]);
    reveal_strlit("$");
    reveal_strlit(":");
    match p {
        Part::Lit(_) => {},
        Part::Var(n) => {
            assert(t + tail =~= seq!['$', '{'] + (n + (seq!['}'] + tail)));
            lemma_ahead(c, seq!['$', '{'], n + (seq!['}'] + tail));
            lemma_name(c.skip(2), n, seq!['}'] + tail);
            lemma_ahead(c.skip(2), n, seq!['}'] + tail);
            assert(x == expansion(c, q, false));
        },
        Part::Quoted(n) => {
            assert(t + tail =~= seq!['$', '"'] + (n + (seq!['"'] + tail)));
            lemma_ahead(c, seq!['$', '"'], n + (seq!['"'] + tail));
            lemma_name(c.skip(2), n, seq!['"'] + tail);
            lemma_ahead(c.skip(2), n, seq!['"'] + tail);
            lemma_peek(c.skip(2), n + (seq!['"'] + tail));
            assert(name_code((n + (seq!['"'] + tail))[0]));
            assert(x == quoted(c, q));
            let v = quoted_value(c.skip(2));
            assert(v.0.next == c.skip(2).skip(n.len() as int));
        },
        Part::Dollar => {
            assert("$"@ =~= seq!['$']);
        },
        Part::Colon => {
            assert(":"@ =~= seq![':']);
        },
    }
}

/// The length of the line break at the head of `s`: a line feed, or a carriage return and
/// a line feed.
pub open spec fn break_len(s: Seq<char>) -> int {
    if s.len() > 0 && s[0] == '\n' {
        1
    } else if s.len() > 1 && s[0] == '\r' && s[1] == '\n' {
        2
    } else {
        0
    }
}

/// What ends a path or a value.
pub open spec fn word_ends(tail: Seq<char>, path: bool) -> bool {
    ||| break_len(tail) > 0
    ||| path && (tail.len() == 0 || tail[0] == ' ' || tail[0] == ':' || tail[0] == '|')
}

spec fn rules_for(path: bool) -> EvalRules {
    if path {
        path_rules()
    } else {
        line_rules()
    }
}

proof fn lemma_literal_run(c: Cursor, q: QuoteState, path: bool, s: Seq<char>, tail: Seq<char>)
    requires
        ahead(c, s + tail),
        forall|k: int| 0 <= k < s.len() ==> plain_code(#[trigger] s[k], path),
        tail.len() > 0 ==> tail[0] == '$' || tail[0] == '\r' || word_ends(tail, path),
    ensures
        literal(c, q, rules_for(path)) == (c.skip(s.len() as int), q),
    decreases s.len(),
{
    let rules = rules_for(path);
    let stop = path_rules().stop;
    assert(stop[0] == ' ' && stop[1] == ':' && stop[2] == '|');
    assert forall|ch: char| stop.contains(ch) implies ch == ' ' || ch == ':' || ch == '|' by {}
    lemma_peek(c, s + tail);
    if s.len() > 0 {
        let t = s.skip(1);
        assert(plain_code(s[0], path));
        assert(s + tail =~= seq![s[0]] + (t + tail));
        lemma_ahead(c, seq![s[0]], t + tail);
        assert forall|k: int| 0 <= k < t.len() implies plain_code(#[trigger] t[k], path) by {
            assert(t[k] == s[k + 1]);
        }
        assert(c.skip(1).skip(t.len() as int) == c.skip(s.len() as int));
        lemma_literal_run(c.skip(1), q, path, t, tail);
    } else {
        assert(s + tail =~= tail);
    }
}

/// A word is read part by part, without errors, up to what ends it.
proof fn lemma_parts(c: Cursor, q: QuoteState, path: bool, w: Seq<Part>, tail: Seq<char>)
    requires
        ahead(c, word_text(w) + tail),
        parts_ok(w, path),
        word_ends(tail, path),
        calm(q),
    ensures
        ({
            let r = whole(c, q, path);
            let d = c.skip(word_text(w).len() as int);
            &&& pieces_are(r.pieces, w)
            &&& r.next == (if path {
                d
            } else {
                d.skip(break_len(tail))
            })
            &&& r.errors.len() == 0
        }),
    decreases w.len(),
{
    let rules = rules_for(path);
    let t = word_text(w);
    let r = whole(c, q, path);
    let step = stretch(c, q, path);
    lemma_stretch(c, q, path);
    let stop = path_rules().stop;
    assert(stop[0] == ' ' && stop[1] == ':' && stop[2] == '|');
    assert(!stop.contains('$') && !line_rules().stop.contains('$'));
    let s = if w.len() > 0 && w[0] is Lit {
        w[0]->Lit_0
    } else {
        seq![]
    };
    let w1 = if w.len() > 0 && w[0] is Lit {
        w.skip(1)
    } else {
        w
    };
    assert forall|i: int| 0 <= i < w1.len() implies part_ok(#[trigger] w1[i], path) by {
        assert(w1[i] == w[i + (w.len() - w1.len())]);
    }
    let t1 = word_text(w1) + tail;
    assert(t + tail =~= s + t1);
    if w1.len() > 0 && w1 != w {
        assert(w[0] is Lit);
        assert(w[1] == w1[0]);
    }
    if w.len() > 0 {
        assert(part_ok(w[0], path));
    }
    let d = c.skip(s.len() as int);
    lemma_ahead(c, s, t1);
    lemma_whole(c, q, path);
    if w1.len() == 0 {
        assert(t1 =~= tail);
        lemma_literal_run(c, q, path, s, tail);
        lemma_peek(d, tail);
        assert(step.more is None);
        assert(t =~= s) by {
            assert(word_text(w1) =~= seq![]);
        }
        assert(r.pieces =~= step.pieces);
        assert(d.text_to(d) =~= seq![]);
    } else {
        let p = w1[0];
        let w2 = w1.skip(1);
        let t2 = word_text(w2) + tail;
        assert(part_ok(p, path));
        assert(t1 =~= part_text(p) + t2);
        lemma_dollar_part(d, q, p, t2);
        lemma_literal_run(c, q, path, s, t1);
        lemma_ahead(d, part_text(p), t2);
        let x = sign(d, q);
        assert(step.more == Some(x.quote));
        assert(step.next == x.next);
        assert(parts_ok(w2, path)) by {
            let k = w.len() - w2.len();
            assert forall|i: int| 0 <= i < w2.len() implies part_ok(#[trigger] w2[i], path) by {
                assert(w2[i] == w[i + k]);
            }
            assert forall|i: int| 0 <= i < w2.len() - 1 implies !(#[trigger] w2[i] is Lit
                && w2[i + 1] is Lit) by {
                assert(w2[i] == w[i + k]);
                assert(w2[i + 1] == w[i + k + 1]);
            }
        }
        lemma_parts(x.next, x.quote, path, w2, tail);
        let rest = whole(x.next, x.quote, path);
        assert(r.pieces == step.pieces + rest.pieces);
        assert(t.len() == s.len() + part_text(p).len() + word_text(w2).len()) by {
            assert(word_text(w1) == part_text(p) + word_text(w2));
        }
        let k = w.len() - w2.len();
        assert forall|i: int| 0 <= i < w.len() implies piece_is(#[trigger] r.pieces[i], w[i]) by {
            if i >= k {
                assert(r.pieces[i] == rest.pieces[i - k]);
                assert(w2[i - k] == w[i]);
            }
        }
    }
}

/// A path is read as it is meant, up to what ends it.
pub proof fn lemma_path_word(c: Cursor, w: Seq<Part>, tail: Seq<char>)
    requires
        ahead(c, word_text(w) + tail),
        parts_ok(w, true),
        word_ends(tail, true),
    ensures
        word_is(path(c).value, w),
        path(c).next == c.skip(word_text(w).len() as int),
        path(c).errors.len() == 0,
{
    reveal(path);
    reveal(whole);
    lemma_parts(c, QuoteState::initial(), true, w, tail);
}

/// A value is read as it is meant, to the end of its line.
pub proof fn lemma_value_word(c: Cursor, w: Seq<Part>, tail: Seq<char>)
    requires
        ahead(c, word_text(w) + (seq!['\n'] + tail)),
        parts_ok(w, false),
    ensures
        word_is(line_value(c).value, w),
        ahead(line_value(c).next, tail),
        line_value(c).next.text == c.text,
        line_value(c).errors.len() == 0,
{
    reveal(line_value);
    reveal(whole);
    lemma_parts(c, QuoteState::initial(), false, w, seq!['\n'] + tail);
    lemma_ahead(c, word_text(w), seq!['\n'] + tail);
    lemma_ahead(c.skip(word_text(w).len() as int), seq!['\n'], tail);
}

/// A value may also end with a carriage return and a line feed, and is the same.
pub proof fn law_value_may_end_with_two(c: Cursor, w: Seq<Part>, tail: Seq<char>)
    requires
        c.wf(),
        c.rest() == word_text(w) + (seq!['\r', '\n'] + tail),
        parts_ok(w, false),
    ensures
        word_is(line_value(c).value, w),
        line_value(c).next.rest() == tail,
        line_value(c).errors.len() == 0,
{
    reveal(line_value);
    reveal(whole);
    let rest = seq!['\r', '\n'] + tail;
    lemma_parts(c, QuoteState::initial(), false, w, rest);
    lemma_ahead(c, word_text(w), rest);
    lemma_ahead(c.skip(word_text(w).len() as int), seq!['\r', '\n'], tail);
}

/// A path ends before a space, a colon, a bar, a line break and the end of the text, and
/// holds what stands before that.
pub proof fn law_path_is_read(c: Cursor, w: Seq<Part>, tail: Seq<char>)
    requires
        c.wf(),
        c.rest() == word_text(w) + tail,
        parts_ok(w, true),
        break_len(tail) > 0 || tail.len() == 0 || tail[0] == ' ' || tail[0] == ':' || tail[0]
            == '|',
    ensures
        word_is(path(c).value, w),
        path(c).next.rest() == tail,
        path(c).errors.len() == 0,
{
    lemma_path_word(c, w, tail);
    lemma_ahead(c, word_text(w), tail);
}

/// A carriage return inside a value, without a line feed, is an error, and is left out of
/// the value.
pub proof fn law_naked_return_in_a_value(c: Cursor, s: Seq<char>, tail: Seq<char>)
    requires
        c.wf(),
        c.rest() == s + (seq!['\r'] + tail),
        s.len() > 0,
        forall|k: int| 0 <= k < s.len() ==> plain_code(#[trigger] s[k], false),
        tail.len() == 0 || tail[0] != '\n',
    ensures
        ({
            let p = line_value(c);
            let d = c.skip(s.len() as int).skip(1);
            &&& p.value.pieces.len() > 0
            &&& p.value.pieces[0].data == PieceDataView::Literal(s)
            &&& p.value.pieces[0].span == c.to(c.skip(s.len() as int))
            &&& p.errors.len() > 0
            &&& p.errors[0].title == "naked carriage returns aren't supported"@
            &&& p.errors[0].marks.len() == 1
            &&& p.errors[0].marks[0].span == d.to(d)
        }),
{
    reveal(line_value);
    reveal(whole);
    reveal(plain_error);
    let q = QuoteState::initial();
    let rest = seq!['\r'] + tail;
    lemma_ahead(c, s, rest);
    lemma_literal_run(c, q, false, s, rest);
    lemma_stretch(c, q, false);
    lemma_whole(c, q, false);
    let d = c.skip(s.len() as int);
    lemma_peek(d, rest);
    let p = line_value(c);
    assert(p.errors[0] == stretch(c, q, false).errors[0]);
    assert(p.value.pieces[0] == stretch(c, q, false).pieces[0]);
}

/// A carriage return inside a path, without a line feed, is an error, and is left out of
/// the path.
pub proof fn law_naked_return_in_a_path(c: Cursor, s: Seq<char>, tail: Seq<char>)
    requires
        c.wf(),
        c.rest() == s + (seq!['\r'] + tail),
        s.len() > 0,
        forall|k: int| 0 <= k < s.len() ==> plain_code(#[trigger] s[k], true),
        tail.len() == 0 || tail[0] != '\n',
    ensures
        ({
            let p = path(c);
            let d = c.skip(s.len() as int).skip(1);
            &&& p.value.pieces.len() > 0
            &&& p.value.pieces[0].data == PieceDataView::Literal(s)
            &&& p.value.pieces[0].span == c.to(c.skip(s.len() as int))
            &&& p.errors.len() > 0
            &&& p.errors[0].title == "naked carriage returns aren't supported"@
            &&& p.errors[0].marks.len() == 1
            &&& p.errors[0].marks[0].span == d.to(d)
        }),
{
    reveal(path);
    reveal(whole);
    reveal(plain_error);
    let q = QuoteState::initial();
    let rest = seq!['\r'] + tail;
    lemma_ahead(c, s, rest);
    lemma_literal_run(c, q, true, s, rest);
    lemma_stretch(c, q, true);
    lemma_whole(c, q, true);
    let d = c.skip(s.len() as int);
    lemma_peek(d, rest);
    let p = path(c);
    assert(p.errors[0] == stretch(c, q, true).errors[0]);
    assert(p.value.pieces[0] == stretch(c, q, true).pieces[0]);
}

/// A value at which the text ends, before its line does: that is an error, and the value
/// is kept.
pub proof fn law_text_ends_in_a_value(c: Cursor, s: Seq<char>)
    requires
        c.wf(),
        c.rest() == s,
        s.len() > 0,
        forall|k: int| 0 <= k < s.len() ==> plain_code(#[trigger] s[k], false),
    ensures
        ({
            let p = line_value(c);
            &&& p.value.pieces.len() == 1
            &&& p.value.pieces[0].data == PieceDataView::Literal(s)
            &&& p.value.pieces[0].span == c.to(c.skip(s.len() as int))
            &&& p.next.at_end()
            &&& p.errors.len() == 1
            &&& p.errors[0].title == "unexpected EOF"@
            &&& p.errors[0].marks.len() == 1
            &&& p.errors[0].marks[0].span == p.next.to(p.next)
        }),
{
    reveal(line_value);
    reveal(whole);
    reveal(plain_error);
    let q = QuoteState::initial();
    let none = Seq::<char>::empty();
    assert(s + none =~= s);
    lemma_ahead(c, s, none);
    lemma_literal_run(c, q, false, s, none);
    lemma_stretch(c, q, false);
    lemma_whole(c, q, false);
}

// ----------------------------------------------------------------- white space

/// What can stand between words: a space, or an escaped line break.
pub enum Pad {
    Space,
    /// With a carriage return, or without one.
    Fold(bool),
}

pub open spec fn pads_text(p: Seq<Pad>) -> Seq<char>
    decreases p.len(),
{
    if p.len() == 0 {
        seq![]
    } else {
        (match p[0] {
            Pad::Space => seq![' '],
            Pad::Fold(true) => seq!['$', '\r', '\n'],
            Pad::Fold(false) => seq!['$', '\n'],
        }) + pads_text(p.skip(1))
    }
}

/// Spaces and escaped line breaks are skipped, in any order, without an error.
pub proof fn law_spaces_and_escaped_breaks_are_skipped(c: Cursor, p: Seq<Pad>, tail: Seq<char>)
    requires
        c.wf(),
        c.rest() == pads_text(p) + tail,
        no_white(tail),
    ensures
        whitespace(c).next == c.skip(pads_text(p).len() as int),
        whitespace(c).next.rest() == tail,
        whitespace(c).errors.len() == 0,
        blanks(c) == whitespace(c).next,
{
    reveal(whitespace);
    lemma_pads(c, p, tail);
    lemma_ahead(c, pads_text(p), tail);
    let d = blanks(c);
    lemma_peek(d, tail);
    if tail.len() > 0 {
        law_characters_of_white_space(tail[0]);
    }
}

proof fn lemma_pads(c: Cursor, p: Seq<Pad>, tail: Seq<char>)
    requires
        ahead(c, pads_text(p) + tail),
        no_white(tail),
    ensures
        blanks(c) == c.skip(pads_text(p).len() as int),
    decreases p.len(),
{
    if p.len() == 0 {
        assert(pads_text(p) + tail =~= tail);
        lemma_blanks_run(c, 0, tail);
        assert(spaces(0) + tail =~= tail);
    } else {
        let p1 = p.skip(1);
        let head = match p[0] {
            Pad::Space => seq![' '],
            Pad::Fold(true) => seq!['$', '\r', '\n'],
            Pad::Fold(false) => seq!['$', '\n'],
        };
        let rest = pads_text(p1) + tail;
        assert(pads_text(p) + tail =~= head + rest);
        lemma_peek(c, head + rest);
        lemma_ahead(c, head, rest);
        if p[0] == Pad::Fold(true) {
            assert(c.text[c.at + 2] == head[2]);
            assert(c.skip(1).skip(1).sees('\n'));
        }
        let d = c.skip(head.len() as int);
        lemma_pads(d, p1, tail);
        assert(d.skip(pads_text(p1).len() as int) == c.skip(pads_text(p).len() as int));
    }
}

/// White space is a tab, a space and the like, by its code.
pub proof fn law_characters_of_white_space(ch: char)
    ensures
        white_space(ch) <==> white_code(ch),
{
}

/// No white space stands at the head of `s`.
pub open spec fn no_white(s: Seq<char>) -> bool {
    s.len() > 0 ==> {
        &&& s[0] == '\n' || !white_code(s[0])
        &&& s[0] == '$' ==> s.len() > 1 && s[1] != '\n' && s[1] != '\r'
    }
}

pub proof fn lemma_blanks_run(c: Cursor, k: nat, tail: Seq<char>)
    requires
        ahead(c, spaces(k) + tail),
        tail.len() > 0 ==> tail[0] != ' ' && (tail[0] == '$' ==> tail.len() > 1 && tail[1] != '\n'
            && tail[1] != '\r'),
    ensures
        blanks(c) == c.skip(k as int),
        offset_of(c.text, c.at + k) == offset_of(c.text, c.at) + k,
    decreases k,
{
    lemma_peek(c, spaces(k) + tail);
    if k == 0 {
        assert(spaces(k) + tail =~= tail);
        if tail.len() > 0 && tail[0] == '\n' {
            assert(c.sees('\n'));
        }
    } else {
        let k1 = (k - 1) as nat;
        assert(spaces(k) + tail =~= seq![' '] + (spaces(k1) + tail));
        lemma_ahead(c, seq![' '], spaces(k1) + tail);
        lemma_blanks_run(c.skip(1), k1, tail);
        lemma_offset_step(c.text, c.at);
        assert(width(' ') == 1);
        assert(c.skip(1).skip(k1 as int) == c.skip(k as int));
    }
}

/// Spaces are white space, and as long as there are of them.
pub proof fn lemma_white(c: Cursor, k: nat, tail: Seq<char>)
    requires
        ahead(c, spaces(k) + tail),
        no_white(tail),
    ensures
        whitespace(c).next == c.skip(k as int),
        ahead(c.skip(k as int), tail),
        whitespace(c).errors.len() == 0,
        whitespace(c).value.len() == k,
        whitespace(c).value == c.to(c.skip(k as int)),
{
    reveal(whitespace);
    let d = c.skip(k as int);
    lemma_blanks_run(c, k, tail);
    lemma_ahead(c, spaces(k), tail);
    lemma_peek(d, tail);
    if tail.len() > 0 {
        law_characters_of_white_space(tail[0]);
    }
}

/// Nothing that could be white space stands at the head of a word.
pub proof fn lemma_word_start(w: Seq<Part>, path: bool, tail: Seq<char>)
    requires
        w.len() > 0,
        parts_ok(w, path),
        w[0] matches Part::Lit(s) ==> !white_code(s[0]),
    ensures
        word_text(w).len() > 0,
        no_white(word_text(w) + tail),
        w[0] matches Part::Lit(s) ==> word_text(w)[0] == s[0],
        w[0] !is Lit ==> word_text(w)[0] == '$',
{
    let t = word_text(w) + tail;
    assert(part_ok(w[0], path));
    assert(word_text(w) == part_text(w[0]) + word_text(w.skip(1)));
    match w[0] {
        Part::Lit(s) => {
            assert(t[0] == s[0]);
            assert(plain_code(s[0], path));
        },
        _ => {
            assert(t[0] == '$');
            assert(t[1] == part_text(w[0])[1]);
        },
    }
}

// ----------------------------------------------------------------------- lists

/// Paths, each with a space before it.
pub open spec fn joined(ws: Seq<Seq<Part>>) -> Seq<char>
    decreases ws.len(),
{
    if ws.len() == 0 {
        seq![]
    } else {
        seq![' '] + word_text(ws[0]) + joined(ws.skip(1))
    }
}

pub open spec fn paths_ok(ws: Seq<Seq<Part>>) -> bool {
    forall|i: int| 0 <= i < ws.len() ==> word_ok(#[trigger] ws[i], true)
}

/// What is read of paths.
pub open spec fn words_are(v: Seq<EvalStringView>, ws: Seq<Seq<Part>>) -> bool {
    v.len() == ws.len() && forall|i: int| 0 <= i < ws.len() ==> word_is(#[trigger] v[i], ws[i])
}

/// What ends a list of paths.
pub open spec fn list_ends(s: Seq<char>) -> bool {
    s.len() > 0 && (s[0] == ':' || s[0] == '|' || s[0] == '\n')
}

proof fn lemma_paths_run(c: Cursor, ws: Seq<Seq<Part>>, g: nat, tail: Seq<char>)
    requires
        paths_ok(ws),
        list_ends(tail),
        ws.len() > 0 ==> ahead(c, word_text(ws[0]) + (joined(ws.skip(1)) + (spaces(g) + tail))),
        ws.len() == 0 ==> ahead(c, tail),
    ensures
        words_are(paths_from(c).value, ws),
        ahead(paths_from(c).next, tail),
        paths_from(c).next.text == c.text,
        paths_from(c).errors.len() == 0,
    decreases ws.len(),
{
    let p = path(c);
    let w = whitespace(p.next);
    if ws.len() == 0 {
        let none: Seq<Part> = seq![];
        assert(word_text(none) + tail =~= tail);
        lemma_path_word(c, none, tail);
        assert(spaces(0) + tail =~= tail);
        lemma_white(c, 0, tail);
    } else {
        let ws1 = ws.skip(1);
        let t1 = joined(ws1) + (spaces(g) + tail);
        assert(word_ok(ws[0], true));
        assert(word_ends(t1, true)) by {
            if ws1.len() > 0 {
                assert(t1[0] == ' ');
            } else if g > 0 {
                assert(t1[0] == ' ');
            } else {
                assert(t1 =~= tail);
            }
        }
        lemma_path_word(c, ws[0], t1);
        lemma_ahead(c, word_text(ws[0]), t1);
        lemma_word_start(ws[0], true, t1);
        assert forall|i: int| 0 <= i < ws1.len() implies word_ok(#[trigger] ws1[i], true) by {
            assert(ws1[i] == ws[i + 1]);
        }
        if ws1.len() > 0 {
            let t2 = joined(ws1.skip(1)) + (spaces(g) + tail);
            assert(t1 =~= spaces(1) + (word_text(ws1[0]) + t2));
            lemma_word_start(ws1[0], true, t2);
            lemma_white(p.next, 1, word_text(ws1[0]) + t2);
        } else {
            assert(t1 =~= spaces(g) + tail);
            lemma_white(p.next, g, tail);
        }
        assert(!c.at_end());
        lemma_paths_run(w.next, ws1, g, tail);
        let rest = paths_from(w.next);
        assert(paths_from(c).value == seq![p.value] + rest.value);
        assert forall|i: int| 0 <= i < ws.len() implies word_is(
            #[trigger] paths_from(c).value[i],
            ws[i],
        ) by {
            if i > 0 {
                assert(paths_from(c).value[i] == rest.value[i - 1]);
                assert(ws1[i - 1] == ws[i]);
            }
        }
    }
}

/// Paths are read one by one, with the spaces behind them.
pub proof fn lemma_paths_list(c: Cursor, ws: Seq<Seq<Part>>, g: nat, tail: Seq<char>)
    requires
        paths_ok(ws),
        list_ends(tail),
        ahead(c, joined(ws) + (spaces(g) + tail)),
    ensures
        words_are(paths(c).value, ws),
        ahead(paths(c).next, tail),
        paths(c).next.text == c.text,
        paths(c).errors.len() == 0,
{
    reveal(paths);
    let w = whitespace(c);
    if ws.len() == 0 {
        assert(joined(ws) + (spaces(g) + tail) =~= spaces(g) + tail);
        lemma_white(c, g, tail);
    } else {
        let t = word_text(ws[0]) + (joined(ws.skip(1)) + (spaces(g) + tail));
        assert(word_ok(ws[0], true));
        lemma_word_start(ws[0], true, joined(ws.skip(1)) + (spaces(g) + tail));
        assert(joined(ws) + (spaces(g) + tail) =~= spaces(1) + t);
        lemma_white(c, 1, t);
    }
    lemma_paths_run(w.next, ws, g, tail);
}

} // verus!
