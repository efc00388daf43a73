//! What holds of the white space in statements: how much of it there is, and whether it
//! holds escaped line breaks, makes no difference.

use vstd::prelude::*;

use crate::ast::VarnameView;
use crate::code::{Cursor, SpanView};
use crate::error::expected_error;
use crate::grammar::{blanks, in_line, is_space, lemma_scan_is, varname, whitespace};
use crate::laws_call::asks_for;
use crate::laws_error::law_only_some_variables_are_bound;
use crate::laws_sign::asked_for;
use crate::plain::{
    ahead, is_name, law_characters_of_names, law_spaces_and_escaped_breaks_are_skipped, lemma_ahead,
    lemma_name, lemma_path_word, lemma_peek, lemma_value_word, lemma_white, lemma_word_start,
    list_ends, name_code, no_white, pads_text, spaces, word_is, word_ok, word_text, words_are, Pad,
    Part,
};
use crate::plain_stmt::{
    bind_is, gap_text, lemma_gap_white, lemma_let_behind, lemma_sees_text, let_line, remarks_ok,
    rule_binds, value_ok, values_ok, Bind,
};
use crate::progress::{lemma_binding, lemma_filler, lemma_whitespace};
use crate::syntax::{
    binding, block, comment, filler, for_header, header, let_stmt, line_end, path, paths,
    paths_from, BlockKind,
};

verus! {

/// What stands behind `p`, which is skipped.
proof fn lemma_padded(c: Cursor, p: Seq<Pad>, tail: Seq<char>)
    requires
        ahead(c, pads_text(p) + tail),
        no_white(tail),
    ensures
        whitespace(c).next == c.skip(pads_text(p).len() as int),
        blanks(c) == whitespace(c).next,
        ahead(whitespace(c).next, tail),
        whitespace(c).errors.len() == 0,
{
    law_spaces_and_escaped_breaks_are_skipped(c, p, tail);
    lemma_ahead(c, pads_text(p), tail);
}

// ------------------------------------------------------------------ assignments

/// An assignment says the same whatever stands around its equals sign.
pub proof fn law_padding_of_assignments(
    c: Cursor,
    var: VarnameView,
    p: Seq<Pad>,
    q: Seq<Pad>,
    value: Seq<Part>,
    tail: Seq<char>,
)
    requires
        c.wf(),
        c.rest() == pads_text(p) + (seq!['='] + (pads_text(q) + (word_text(value) + (seq!['\n']
            + tail)))),
        var.valid(),
        value_ok(value),
    ensures
        ({
            let l = let_stmt(c, var);
            &&& l.value.var == var
            &&& word_is(l.value.value, value)
            &&& l.next.rest() == tail
            &&& l.errors.len() == 0
        }),
{
    reveal(let_stmt);
    let rest = word_text(value) + (seq!['\n'] + tail);
    let signed = seq!['='] + (pads_text(q) + rest);
    lemma_padded(c, p, signed);
    let d = whitespace(c).next;
    lemma_peek(d, signed);
    lemma_ahead(d, seq!['='], pads_text(q) + rest);
    if value.len() > 0 {
        lemma_word_start(value, false, seq!['\n'] + tail);
    } else {
        assert(rest[0] == '\n');
    }
    lemma_padded(d.skip(1), q, rest);
    lemma_value_word(blanks(d.skip(1)), value, tail);
}

/// Where the equals sign is missing, the value is read all the same.
pub proof fn law_value_without_equals_sign(
    c: Cursor,
    var: VarnameView,
    p: Seq<Pad>,
    value: Seq<Part>,
    tail: Seq<char>,
)
    requires
        c.wf(),
        c.rest() == pads_text(p) + (word_text(value) + (seq!['\n'] + tail)),
        value_ok(value),
        value.len() > 0,
        value[0] is Lit ==> value[0]->Lit_0[0] != '=',
    ensures
        ({
            let l = let_stmt(c, var);
            &&& word_is(l.value.value, value)
            &&& l.next.rest() == tail
            &&& l.errors.len() == 1
        }),
{
    reveal(let_stmt);
    let rest = word_text(value) + (seq!['\n'] + tail);
    lemma_word_start(value, false, seq!['\n'] + tail);
    lemma_padded(c, p, rest);
    let d = whitespace(c).next;
    lemma_peek(d, rest);
    assert(rest[0] == word_text(value)[0]);
    let none = Seq::<Pad>::empty();
    assert(pads_text(none) + rest =~= rest);
    lemma_padded(d, none, rest);
    assert(pads_text(none).len() == 0);
    assert(blanks(d) == d);
    lemma_value_word(d, value, tail);
}

// ---------------------------------------------------------------------- headers

/// The name of a rule or a pool is the same whatever stands around it.
pub proof fn law_padding_of_names(
    c: Cursor,
    title: Seq<char>,
    expected: Seq<char>,
    p: Seq<Pad>,
    name: Seq<char>,
    q: Seq<Pad>,
    tail: Seq<char>,
)
    requires
        c.wf(),
        c.rest() == pads_text(p) + (name + (pads_text(q) + (seq!['\n'] + tail))),
        is_name(name),
    ensures
        ({
            let h = header(c, title, expected);
            &&& h.value.name == name
            &&& h.next.rest() == tail
            &&& h.errors.len() == 0
        }),
{
    reveal(header);
    reveal(line_end);
    let end = seq!['\n'] + tail;
    let rest = pads_text(q) + end;
    assert(name_code(name[0]));
    assert((name + rest)[0] == name[0]);
    lemma_padded(c, p, name + rest);
    let d = whitespace(c).next;
    assert(!name_code(rest[0])) by {
        if q.len() > 0 {
            assert(pads_text(q)[0] == ' ' || pads_text(q)[0] == '$');
            assert(rest[0] == pads_text(q)[0]);
        } else {
            assert(rest =~= end);
        }
    }
    lemma_name(d, name, rest);
    lemma_ahead(d, name, rest);
    let e = d.skip(name.len() as int);
    lemma_padded(e, q, end);
    let f = whitespace(e).next;
    lemma_peek(f, end);
    lemma_ahead(f, seq!['\n'], tail);
}

// ----------------------------------------------------------------------- paths

/// Paths, each with what stands behind it.
pub open spec fn padded_text(ws: Seq<(Seq<Part>, Seq<Pad>)>) -> Seq<char>
    decreases ws.len(),
{
    if ws.len() == 0 {
        seq![]
    } else {
        word_text(ws[0].0) + pads_text(ws[0].1) + padded_text(ws.skip(1))
    }
}

/// Each path has a space behind it, and then whatever can stand between words. Behind the
/// last there may be nothing.
pub open spec fn padded_ok(ws: Seq<(Seq<Part>, Seq<Pad>)>) -> bool
    decreases ws.len(),
{
    ws.len() > 0 ==> {
        &&& word_ok(ws[0].0, true)
        &&& ws.len() > 1 ==> ws[0].1.len() > 0
        &&& ws[0].1.len() > 0 ==> ws[0].1[0] is Space
        &&& padded_ok(ws.skip(1))
    }
}

pub open spec fn words_of(ws: Seq<(Seq<Part>, Seq<Pad>)>) -> Seq<Seq<Part>> {
    Seq::new(ws.len(), |i: int| ws[i].0)
}

proof fn lemma_padded_start(ws: Seq<(Seq<Part>, Seq<Pad>)>, tail: Seq<char>)
    requires
        padded_ok(ws),
        list_ends(tail),
    ensures
        no_white(padded_text(ws) + tail),
{
    let t = padded_text(ws) + tail;
    if ws.len() == 0 {
        assert(t =~= tail);
    } else {
        let rest = pads_text(ws[0].1) + padded_text(ws.skip(1)) + tail;
        assert(t =~= word_text(ws[0].0) + rest);
        lemma_word_start(ws[0].0, true, rest);
    }
}

proof fn lemma_padded_run(c: Cursor, ws: Seq<(Seq<Part>, Seq<Pad>)>, tail: Seq<char>)
    requires
        padded_ok(ws),
        list_ends(tail),
        ahead(c, padded_text(ws) + tail),
    ensures
        words_are(paths_from(c).value, words_of(ws)),
        ahead(paths_from(c).next, tail),
        paths_from(c).errors.len() == 0,
    decreases ws.len(),
{
    let p = path(c);
    let w = whitespace(p.next);
    let none = Seq::<Pad>::empty();
    if ws.len() == 0 {
        let nothing: Seq<Part> = seq![];
        assert(padded_text(ws) + tail =~= tail);
        assert(word_text(nothing) + tail =~= tail);
        lemma_path_word(c, nothing, tail);
        assert(pads_text(none) + tail =~= tail);
        lemma_padded(c, none, tail);
    } else {
        let ws1 = ws.skip(1);
        let after = padded_text(ws1) + tail;
        let rest = pads_text(ws[0].1) + after;
        let t = word_text(ws[0].0);
        assert(padded_text(ws) + tail =~= t + rest);
        if ws[0].1.len() > 0 {
            assert(pads_text(ws[0].1)[0] == ' ');
            assert(rest[0] == ' ');
        } else {
            assert(rest =~= after);
            assert(ws1.len() == 0);
            assert(after =~= tail);
        }
        lemma_path_word(c, ws[0].0, rest);
        lemma_ahead(c, t, rest);
        lemma_padded_start(ws1, tail);
        lemma_padded(p.next, ws[0].1, after);
        lemma_word_start(ws[0].0, true, rest);
        assert(c.rest().len() > w.next.rest().len());
        assert(c.advances(w.next) && !c.at_end());
        lemma_padded_run(w.next, ws1, tail);
        let v = paths_from(c).value;
        let r = paths_from(w.next).value;
        assert(v == seq![p.value] + r);
        let all = words_of(ws);
        assert forall|i: int| 0 <= i < all.len() implies word_is(#[trigger] v[i], all[i]) by {
            if i > 0 {
                assert(v[i] == r[i - 1]);
                assert(words_of(ws1)[i - 1] == all[i]);
                assert(word_is(r[i - 1], words_of(ws1)[i - 1]));
            }
        }
    }
}

/// Paths are the same whatever stands before, between and behind them.
pub proof fn law_padding_of_paths(
    c: Cursor,
    p: Seq<Pad>,
    ws: Seq<(Seq<Part>, Seq<Pad>)>,
    tail: Seq<char>,
)
    requires
        c.wf(),
        c.rest() == pads_text(p) + (padded_text(ws) + tail),
        padded_ok(ws),
        list_ends(tail),
    ensures
        words_are(paths(c).value, words_of(ws)),
        paths(c).next.rest() == tail,
        paths(c).errors.len() == 0,
{
    reveal(paths);
    lemma_padded_start(ws, tail);
    lemma_padded(c, p, padded_text(ws) + tail);
    lemma_padded_run(whitespace(c).next, ws, tail);
}

// ------------------------------------------------------------------------- for

/// The line of a `for` says the same whatever stands around its words.
pub proof fn law_padding_of_for(
    c: Cursor,
    p: Seq<Pad>,
    var: Seq<char>,
    q: Seq<Pad>,
    r: Seq<Pad>,
    values: Seq<Part>,
    tail: Seq<char>,
)
    requires
        c.wf(),
        c.rest() == pads_text(p) + (var + (pads_text(q) + (seq!['i', 'n'] + (pads_text(r) + (
        word_text(values) + (seq!['\n'] + tail)))))),
        is_name(var),
        q.len() > 0,
        values_ok(values),
    ensures
        ({
            let h = for_header(c);
            &&& h.value.0.name == var
            &&& word_is(h.value.1, values)
            &&& h.next.rest() == tail
            &&& h.errors.len() == 0
        }),
{
    reveal(for_header);
    reveal_strlit("in");
    let inn = seq!['i', 'n'];
    assert("in"@ =~= inn);
    let t3 = word_text(values) + (seq!['\n'] + tail);
    let t2 = pads_text(r) + t3;
    let t1 = pads_text(q) + (inn + t2);
    assert(name_code(var[0]));
    assert((var + t1)[0] == var[0]);
    lemma_padded(c, p, var + t1);
    let d = whitespace(c).next;
    assert(pads_text(q)[0] == ' ' || pads_text(q)[0] == '$');
    assert(t1[0] == pads_text(q)[0]);
    lemma_name(d, var, t1);
    lemma_ahead(d, var, t1);
    let e = d.skip(var.len() as int);
    lemma_padded(e, q, inn + t2);
    let f = whitespace(e).next;
    lemma_sees_text(f, inn + t2, inn);
    assert((inn + t2).take(2) =~= inn);
    lemma_ahead(f, inn, t2);
    lemma_word_start(values, false, seq!['\n'] + tail);
    lemma_padded(f.skip(2), r, t3);
    let g = whitespace(f.skip(2)).next;
    lemma_peek(g, t3);
    assert(t3[0] == word_text(values)[0]);
    law_characters_of_names(t3[0], false);
    lemma_value_word(g, values, tail);
}

/// Where the values of a `for` do not begin with a character of a name, a space is asked
/// for.
pub proof fn law_space_before_values_is_asked_for(
    c: Cursor,
    var: Seq<char>,
    k: nat,
    tail: Seq<char>,
)
    requires
        c.wf(),
        c.rest() == seq![' '] + var + (seq![' ', 'i', 'n'] + (spaces(k) + tail)),
        is_name(var),
        no_white(tail),
        tail.len() > 0 ==> !name_code(tail[0]),
    ensures
        asked_for(
            for_header(c).errors,
            "expected a space ' '"@,
            c.skip(4 + var.len() as int).skip(k as int).offset(),
            seq![' '],
        ),
{
    reveal(for_header);
    reveal(expected_error);
    reveal_strlit("in");
    reveal_strlit(" ");
    let inn = seq!['i', 'n'];
    assert("in"@ =~= inn);
    assert(" "@ =~= seq![' ']);
    let t2 = spaces(k) + tail;
    let t1 = spaces(1) + (inn + t2);
    assert(c.rest() =~= spaces(1) + (var + t1));
    assert(name_code(var[0]));
    assert((var + t1)[0] == var[0]);
    lemma_white(c, 1, var + t1);
    assert(t1[0] == ' ');
    lemma_name(c.skip(1), var, t1);
    lemma_ahead(c.skip(1), var, t1);
    let d = c.skip(1).skip(var.len() as int);
    lemma_white(d, 1, inn + t2);
    let e = d.skip(1);
    lemma_sees_text(e, inn + t2, inn);
    assert((inn + t2).take(2) =~= inn);
    lemma_ahead(e, inn, t2);
    lemma_white(e.skip(2), k, tail);
    let g = e.skip(2).skip(k as int);
    assert(g == c.skip(4 + var.len() as int).skip(k as int));
    lemma_peek(g, tail);
    if tail.len() > 0 {
        law_characters_of_names(tail[0], false);
    }
    let errors = for_header(c).errors;
    assert(asks_for(errors[0], "expected a space ' '"@, g.offset(), seq![' ']));
}

// -------------------------------------------------------------------- bindings

/// A line below a statement is bound by it, with what stands before it, whatever its
/// name. Only a pool keeps no variable but its depth. What follows is read on its own.
pub proof fn law_lines_below_are_bound(
    c: Cursor,
    kind: BlockKind,
    n: nat,
    context: SpanView,
    b: Bind,
    tail: Seq<char>,
)
    requires
        c.wf(),
        c.rest() == gap_text(b.gap) + (spaces(b.indent) + (let_line(b.name, b.value) + tail)),
        remarks_ok(b.gap.remarks),
        b.indent > n,
        is_name(b.name),
        value_ok(b.value),
    ensures
        ({
            let all = block(c, kind, n as int, context);
            let d = c.skip(c.rest().len() - tail.len());
            let more = block(d, kind, n as int, context);
            let kept = kind != BlockKind::Pool || b.name == "depth"@;
            &&& d.rest() == tail
            &&& all.next == more.next
            &&& all.filler == more.filler
            &&& all.indent == more.indent
            &&& kept ==> all.bindings.len() == more.bindings.len() + 1 && bind_is(
                all.bindings[0],
                b,
            ) && all.bindings.skip(1) == more.bindings
            &&& !kept ==> all.bindings == more.bindings
            &&& all.errors.len() == more.errors.len() + (if kind == BlockKind::Build || (kind
                == BlockKind::Rule && rule_binds(b.name)) || (kind == BlockKind::Pool && b.name
                == "depth"@) {
                0int
            } else {
                1
            })
        }),
{
    let line = let_line(b.name, b.value) + tail;
    let rest = seq![' ', '=', ' '] + word_text(b.value) + seq!['\n'] + tail;
    assert(name_code(b.name[0]));
    assert(line[0] == b.name[0]);
    lemma_gap_white(c, b.gap, b.indent, line);
    let f = filler(c);
    let w = whitespace(f.next);
    assert(line =~= b.name + rest);
    assert(rest[0] == ' ');
    law_only_some_variables_are_bound(w.next, kind, context, b.name, rest);
    lemma_name(w.next, b.name, rest);
    lemma_ahead(w.next, b.name, rest);
    let (var, e) = varname(w.next, false);
    lemma_let_behind(e, var, b.value, tail);
    let (p, kept) = binding(w.next, kind, context);
    let d = c.skip(c.rest().len() - tail.len());
    assert(p.next.rest().len() == tail.len());
    assert(p.next == d);
    assert(c.advances(p.next) && !c.at_end());
    let all = block(c, kind, n as int, context);
    let more = block(d, kind, n as int, context);
    if kept {
        assert(all.bindings.skip(1) =~= more.bindings);
    } else {
        assert(all.bindings =~= more.bindings);
    }
}

/// A pool keeps nothing but its depth, and lines whose name is missing.
pub proof fn law_pool_keeps_its_depth(c: Cursor, n: int, context: SpanView)
    requires
        c.wf(),
    ensures
        ({
            let v = block(c, BlockKind::Pool, n, context).bindings;
            forall|i: int|
                0 <= i < v.len() ==> (#[trigger] v[i]).1.let_stmt.var.name == "depth"@
                    || !v[i].1.let_stmt.var.valid()
        }),
    decreases c.left(),
{
    let f = filler(c);
    let w = whitespace(f.next);
    lemma_filler(c);
    lemma_whitespace(f.next);
    if w.value.len() > n {
        let (b, kept) = binding(w.next, BlockKind::Pool, context);
        lemma_binding(w.next, BlockKind::Pool, context);
        assert(kept ==> b.value.var.name == "depth"@ || !b.value.var.valid()) by {
            reveal(binding);
            reveal(let_stmt);
        }
        if c.advances(b.next) && !c.at_end() {
            law_pool_keeps_its_depth(b.next, n, context);
            let v = block(c, BlockKind::Pool, n, context).bindings;
            let r = block(b.next, BlockKind::Pool, n, context).bindings;
            assert forall|i: int| 0 <= i < v.len() implies (#[trigger] v[i]).1.let_stmt.var.name
                == "depth"@ || !v[i].1.let_stmt.var.valid() by {
                if kept && i > 0 {
                    assert(v[i] == r[i - 1]);
                } else if !kept {
                    assert(v[i] == r[i]);
                }
            }
        }
    }
}

// -------------------------------------------------------------------- comments

/// A comment at which the text ends is kept, and the end of its line is asked for.
pub proof fn law_text_ends_in_a_comment(c: Cursor, k: nat, s: Seq<char>)
    requires
        c.wf(),
        c.rest() == spaces(k) + (seq!['#'] + s),
        forall|i: int| 0 <= i < s.len() ==> #[trigger] s[i] != '\n',
    ensures
        ({
            let p = comment(c);
            &&& p.value.text == c.rest()
            &&& p.value.post_newlines == 1
            &&& p.next.at_end()
            &&& p.errors.len() == 1
            &&& asks_for(p.errors[0], "expected newline"@, p.next.offset(), seq!['\n'])
        }),
{
    reveal(expected_error);
    reveal_strlit("\n");
    assert("\n"@ =~= seq!['\n']);
    let mark = seq!['#'] + s;
    lemma_ahead(c, spaces(k), mark);
    let d = c.skip(k as int);
    assert forall|j: int| c.at <= j < d.at implies is_space()(#[trigger] c.text[j]) by {
        assert(c.text[c.at + (j - c.at)] == spaces(k)[j - c.at]);
    }
    lemma_peek(d, mark);
    lemma_scan_is(c, is_space(), d);
    lemma_ahead(d, seq!['#'], s);
    let e = d.skip(1);
    let none = Seq::<char>::empty();
    assert(s + none =~= s);
    lemma_ahead(e, s, none);
    let f = e.skip(s.len() as int);
    assert forall|j: int| e.at <= j < f.at implies in_line()(#[trigger] e.text[j]) by {
        assert(e.text[e.at + (j - e.at)] == s[j - e.at]);
    }
    lemma_scan_is(e, in_line(), f);
    assert(f.newline() == 0);
    assert(f.skip(0) == f);
    lemma_scan_is(f, is_space(), f);
    assert(c.text_to(f) =~= c.rest());
}

} // verus!
