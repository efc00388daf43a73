//! Whole files in the plain form: what is read of them.

use vstd::prelude::*;

use crate::code::{Cursor, SpanView};
use crate::grammar::{varname, whitespace};
use crate::plain::{
    ahead, is_name, joined, lemma_ahead, lemma_name, lemma_peek, name_code, paths_ok, spaces,
    word_is, word_text, words_are, Part,
};
use crate::plain_stmt::{
    binds_are, binds_ok, binds_text, build_is, build_line, build_ok, done, gap_is, gap_text,
    lemma_build_of, lemma_default_of, lemma_for_header_of, lemma_gap_white, lemma_let_behind,
    lemma_pool_of, lemma_rule_of, let_is, let_line, remarks_ok, section_of, solid, value_ok,
    values_ok, Bind, Gap, PlainBuild,
};
use crate::stmt::{FillerView, ForBodyItemView, ItemView, ItemsView, MexFileView};
use crate::syntax::{
    body_with_rest, default_stmt, file, filler, for_body, for_header, for_stmt, for_with_body, item,
    items, let_stmt, simple_item, with_filler, BlockKind,
};

verus! {

/// A statement in the plain form.
pub enum PlainItem {
    Let(Seq<char>, Seq<Part>),
    Rule(Seq<char>, Seq<Bind>),
    Build(PlainBuild),
    Default(Seq<Seq<Part>>),
    Pool(Seq<char>, Seq<Bind>),
    For(Seq<char>, Seq<Part>, Seq<PlainBody>),
}

/// A statement in the body of a `for`: what stands before it, and how far it is
/// indented.
pub struct PlainBody {
    pub gap: Gap,
    pub indent: nat,
    pub item: PlainItem,
}

/// The line of a `for`, behind that word.
pub open spec fn for_line(var: Seq<char>, values: Seq<Part>) -> Seq<char> {
    seq![' '] + var + seq![' ', 'i', 'n', ' '] + word_text(values) + seq!['\n']
}

/// How a statement is spelled.
pub open spec fn item_text(i: PlainItem) -> Seq<char>
    decreases i,
{
    match i {
        PlainItem::Let(name, value) => let_line(name, value),
        PlainItem::Rule(name, binds) => seq!['r', 'u', 'l', 'e'] + (seq![' '] + name + seq!['\n']
            + binds_text(binds)),
        PlainItem::Build(b) => seq!['b', 'u', 'i', 'l', 'd'] + (build_line(b) + binds_text(
            b.binds,
        )),
        PlainItem::Default(ws) => seq!['d', 'e', 'f', 'a', 'u', 'l', 't'] + (joined(ws)
            + seq!['\n']),
        PlainItem::Pool(name, binds) => seq!['p', 'o', 'o', 'l'] + (seq![' '] + name + seq!['\n']
            + binds_text(binds)),
        PlainItem::For(var, values, body) => seq!['f', 'o', 'r'] + (for_line(var, values)
            + bodies_text(body)),
    }
}

/// How the body of a `for` is spelled.
pub open spec fn bodies_text(bs: Seq<PlainBody>) -> Seq<char>
    decreases bs,
{
    if bs.len() == 0 {
        seq![]
    } else {
        gap_text(bs[0].gap) + spaces(bs[0].indent) + item_text(bs[0].item) + bodies_text(
            bs.subrange(1, bs.len() as int),
        )
    }
}

/// The words that begin statements of their own.
pub open spec fn is_keyword(name: Seq<char>) -> bool {
    ||| name == "rule"@
    ||| name == "build"@
    ||| name == "default"@
    ||| name == "pool"@
    ||| name == "for"@
}

/// The statement can stand where it is indented by `n`.
pub open spec fn item_ok(i: PlainItem, n: nat) -> bool
    decreases i,
{
    match i {
        PlainItem::Let(name, value) => is_name(name) && !is_keyword(name) && value_ok(value),
        PlainItem::Rule(name, binds) => is_name(name) && binds_ok(binds, BlockKind::Rule, n),
        PlainItem::Build(b) => build_ok(b, n),
        PlainItem::Default(ws) => paths_ok(ws),
        PlainItem::Pool(name, binds) => {
            is_name(name) && binds.len() > 0 && binds_ok(binds, BlockKind::Pool, n)
        },
        PlainItem::For(var, values, body) => is_name(var) && values_ok(values) && bodies_ok(
            body,
            n,
        ),
    }
}

/// The statements can stand in the body of a `for` that is indented by `n`. None of them
/// is indented further than the one before it.
pub open spec fn bodies_ok(bs: Seq<PlainBody>, n: nat) -> bool
    decreases bs,
{
    bs.len() > 0 ==> {
        &&& bs[0].indent > n
        &&& remarks_ok(bs[0].gap.remarks)
        &&& item_ok(bs[0].item, bs[0].indent)
        &&& bs.len() > 1 ==> bs[1].indent <= bs[0].indent
        &&& bodies_ok(bs.subrange(1, bs.len() as int), n)
    }
}

/// What is read of a statement.
pub open spec fn item_is(v: ItemView, i: PlainItem) -> bool
    decreases i,
{
    match i {
        PlainItem::Let(name, value) => v is Let && let_is(v->Let_0, name, value),
        PlainItem::Rule(name, binds) => {
            v is Rule && v->Rule_0.name.name == name && binds_are(v->Rule_0.bindings, binds)
        },
        PlainItem::Build(b) => v is Build && build_is(v->Build_0, b),
        PlainItem::Default(ws) => v is Default && words_are(v->Default_0.outs, ws),
        PlainItem::Pool(name, binds) => {
            v is Pool && v->Pool_0.name.name == name && binds_are(v->Pool_0.bindings, binds)
        },
        PlainItem::For(var, values, body) => {
            &&& v is For
            &&& v->For_0.var.name == var
            &&& word_is(v->For_0.values, values)
            &&& bodies_are(v->For_0.items, body)
        },
    }
}

/// What is read of the body of a `for`.
pub open spec fn bodies_are(v: Seq<ForBodyItemView>, bs: Seq<PlainBody>) -> bool
    decreases bs,
{
    &&& v.len() == bs.len()
    &&& bs.len() > 0 ==> {
        &&& gap_is(v[0].filler, bs[0].gap)
        &&& v[0].indent_span.len() == bs[0].indent
        &&& item_is(v[0].item, bs[0].item)
        &&& bodies_are(v.skip(1), bs.subrange(1, bs.len() as int))
    }
}

// -------------------------------------------------------------------- reading

/// What follows the first statement of a body: the gap, the indentation, and the rest.
pub open spec fn next_gap(bs: Seq<PlainBody>, g: Gap) -> Gap {
    if bs.len() == 0 {
        g
    } else {
        bs[0].gap
    }
}

pub open spec fn next_indent(bs: Seq<PlainBody>, k: nat) -> nat {
    if bs.len() == 0 {
        k
    } else {
        bs[0].indent
    }
}

pub open spec fn next_text(bs: Seq<PlainBody>, g: Gap, k: nat, tail: Seq<char>) -> Seq<char> {
    if bs.len() == 0 {
        tail
    } else {
        item_text(bs[0].item) + (bodies_text(bs.subrange(1, bs.len() as int)) + (gap_text(g) + (
        spaces(k) + tail)))
    }
}

proof fn lemma_next(bs: Seq<PlainBody>, n: nat, g: Gap, k: nat, tail: Seq<char>)
    requires
        bodies_ok(bs, n),
        remarks_ok(g.remarks),
        solid(tail),
    ensures
        bodies_text(bs) + (gap_text(g) + (spaces(k) + tail)) == gap_text(next_gap(bs, g)) + (
        spaces(next_indent(bs, k)) + next_text(bs, g, k, tail)),
        solid(next_text(bs, g, k, tail)),
        remarks_ok(next_gap(bs, g).remarks),
{
    let end = gap_text(g) + (spaces(k) + tail);
    if bs.len() == 0 {
        assert(bodies_text(bs) + end =~= end);
    } else {
        let t = item_text(bs[0].item);
        let rest = bodies_text(bs.subrange(1, bs.len() as int)) + end;
        assert(bodies_text(bs) + end =~= gap_text(bs[0].gap) + (spaces(bs[0].indent) + (t
            + rest)));
        lemma_item_start(bs[0].item, bs[0].indent);
        assert((t + rest)[0] == t[0]);
    }
}

/// A statement begins with a character of a name.
proof fn lemma_item_start(i: PlainItem, n: nat)
    requires
        item_ok(i, n),
    ensures
        item_text(i).len() > 0,
        name_code(item_text(i)[0]),
{
    match i {
        PlainItem::Let(name, value) => {
            assert(name_code(name[0]));
            assert(item_text(i)[0] == name[0]);
        },
        _ => {},
    }
}

/// The word that a statement begins with.
pub open spec fn word_of(i: PlainItem) -> Seq<char> {
    match i {
        PlainItem::Let(name, _) => name,
        PlainItem::Rule(..) => seq!['r', 'u', 'l', 'e'],
        PlainItem::Build(_) => seq!['b', 'u', 'i', 'l', 'd'],
        PlainItem::Default(_) => seq!['d', 'e', 'f', 'a', 'u', 'l', 't'],
        PlainItem::Pool(..) => seq!['p', 'o', 'o', 'l'],
        PlainItem::For(..) => seq!['f', 'o', 'r'],
    }
}

proof fn lemma_words()
    ensures
        "rule"@ == seq!['r', 'u', 'l', 'e'],
        "build"@ == seq!['b', 'u', 'i', 'l', 'd'],
        "default"@ == seq!['d', 'e', 'f', 'a', 'u', 'l', 't'],
        "pool"@ == seq!['p', 'o', 'o', 'l'],
        "for"@ == seq!['f', 'o', 'r'],
        "rule"@ != "pool"@,
        "rule"@.len() == 4,
        "build"@.len() == 5,
        "default"@.len() == 7,
        "pool"@.len() == 4,
        "for"@.len() == 3,
{
    reveal_strlit("rule");
    reveal_strlit("build");
    reveal_strlit("default");
    reveal_strlit("pool");
    reveal_strlit("for");
    assert("rule"@ =~= seq!['r', 'u', 'l', 'e']);
    assert("build"@ =~= seq!['b', 'u', 'i', 'l', 'd']);
    assert("default"@ =~= seq!['d', 'e', 'f', 'a', 'u', 'l', 't']);
    assert("pool"@ =~= seq!['p', 'o', 'o', 'l']);
    assert("for"@ =~= seq!['f', 'o', 'r']);
    assert("rule"@[0] == 'r' && "pool"@[0] == 'p');
}

/// What stands behind the word that a statement begins with.
pub open spec fn behind_word(i: PlainItem) -> Seq<char> {
    item_text(i).skip(word_of(i).len() as int)
}

/// A statement is read as what it says, up to the next one.
pub proof fn lemma_item_of(
    c: Cursor,
    n: nat,
    i: PlainItem,
    g: Gap,
    k: nat,
    tail: Seq<char>,
)
    requires
        ahead(c, item_text(i) + (gap_text(g) + (spaces(k) + tail))),
        item_ok(i, n),
        remarks_ok(g.remarks),
        solid(tail),
        k <= n || i is Let || i is Default,
    ensures
        item_is(item(c, n as int).value, i),
        done(item(c, n as int), c, g, k, tail),
    decreases i,
{
    let end = gap_text(g) + (spaces(k) + tail);
    let word = word_of(i);
    let rest = behind_word(i) + end;
    lemma_words();
    lemma_item_start(i, n);
    assert(item_text(i) =~= word + behind_word(i));
    assert(item_text(i) + end =~= word + rest);
    lemma_behind(i, n);
    assert(rest[0] == behind_word(i)[0]);
    lemma_name(c, word, rest);
    lemma_ahead(c, word, rest);
    let (name, d) = varname(c, false);
    match i {
        PlainItem::For(var, values, body) => {
            let head = for_line(var, values);
            let h = for_header(d);
            let after = bodies_text(body) + end;
            assert(rest =~= seq![' '] + var + seq![' ', 'i', 'n', ' '] + word_text(values)
                + seq!['\n'] + after);
            lemma_for_header_of(d, var, values, after);
            lemma_next(body, n, g, k, tail);
            lemma_gap_white(
                h.next,
                next_gap(body, g),
                next_indent(body, k),
                next_text(body, g, k, tail),
            );
            let s = with_filler(h);
            lemma_bodies_of(s.next, n, s.filler, s.indent, body, g, k, tail);
            let b = for_body(s.next, n as int, s.filler, s.indent);
            assert(for_stmt(d, n as int, name.span) == for_with_body(s, name.span, b));
        },
        _ => {
            lemma_simple_of(d, n, name.span, i, g, k, tail);
            assert(name.name == word);
        },
    }
}

/// Behind the word stands a space or the end of the line.
proof fn lemma_behind(i: PlainItem, n: nat)
    requires
        item_ok(i, n),
    ensures
        item_text(i) == word_of(i) + behind_word(i),
        behind_word(i).len() > 0,
        !name_code(behind_word(i)[0]),
        is_name(word_of(i)),
{
    let w = word_of(i);
    let b = behind_word(i);
    match i {
        PlainItem::Let(name, value) => {
            assert(b =~= seq![' ', '=', ' '] + word_text(value) + seq!['\n']);
            assert(item_text(i) =~= w + b);
        },
        PlainItem::Rule(name, binds) => {
            assert(b =~= seq![' '] + name + seq!['\n'] + binds_text(binds));
        },
        PlainItem::Build(p) => {
            assert(b =~= build_line(p) + binds_text(p.binds));
            if p.outs.len() > 0 {
                assert(joined(p.outs)[0] == ' ');
                assert(b[0] == joined(p.outs)[0]);
            } else {
                assert(joined(p.outs) =~= seq![]);
                let s = section_of(seq!['|'], p.implicit_outs);
                assert(s[0] == ' ');
                assert(b[0] == s[0]);
            }
        },
        PlainItem::Default(ws) => {
            assert(b =~= joined(ws) + seq!['\n']);
            if ws.len() > 0 {
                assert(joined(ws)[0] == ' ');
                assert(b[0] == ' ');
            }
        },
        PlainItem::Pool(name, binds) => {
            assert(b =~= seq![' '] + name + seq!['\n'] + binds_text(binds));
        },
        PlainItem::For(var, values, body) => {
            assert(b =~= for_line(var, values) + bodies_text(body));
        },
    }
}

proof fn lemma_simple_of(
    d: Cursor,
    n: nat,
    span: SpanView,
    i: PlainItem,
    g: Gap,
    k: nat,
    tail: Seq<char>,
)
    requires
        ahead(d, behind_word(i) + (gap_text(g) + (spaces(k) + tail))),
        item_ok(i, n),
        i !is For,
        remarks_ok(g.remarks),
        solid(tail),
        k <= n || i is Let || i is Default,
        (crate::ast::VarnameView { name: word_of(i), span }).valid(),
    ensures
        ({
            let s = simple_item(d, n as int, crate::ast::VarnameView { name: word_of(i), span });
            &&& item_is(s.value, i)
            &&& done(s, d, g, k, tail)
        }),
{
    reveal(simple_item);
    lemma_words();
    let name = crate::ast::VarnameView { name: word_of(i), span };
    let end = gap_text(g) + (spaces(k) + tail);
    let rest = behind_word(i) + end;
    match i {
        PlainItem::Let(_, value) => {
            assert(rest =~= seq![' ', '=', ' '] + word_text(value) + seq!['\n'] + end);
            lemma_let_behind(d, name, value, end);
            lemma_gap_white(let_stmt(d, name).next, g, k, tail);
        },
        PlainItem::Rule(title, binds) => {
            assert(rest =~= seq![' '] + title + seq!['\n'] + (binds_text(binds) + end));
            lemma_rule_of(d, n, span, title, binds, g, k, tail);
        },
        PlainItem::Build(b) => {
            assert(rest =~= build_line(b) + (binds_text(b.binds) + end));
            assert("rule"@.len() != "build"@.len());
            lemma_build_of(d, n, span, b, g, k, tail);
        },
        PlainItem::Default(ws) => {
            assert(rest =~= joined(ws) + (seq!['\n'] + end));
            assert("default"@.len() != "build"@.len() && "default"@.len() != "rule"@.len());
            lemma_default_of(d, span, ws, end);
            lemma_gap_white(default_stmt(d, span).next, g, k, tail);
        },
        PlainItem::Pool(title, binds) => {
            assert(rest =~= seq![' '] + title + seq!['\n'] + (binds_text(binds) + end));
            assert("pool"@.len() != "build"@.len() && "pool"@.len() != "default"@.len());
            lemma_pool_of(d, n, span, title, binds, g, k, tail);
        },
        _ => {},
    }
}

/// The body of a `for`, from its first statement on.
proof fn lemma_bodies_of(
    c: Cursor,
    n: nat,
    before: FillerView,
    indent: SpanView,
    bs: Seq<PlainBody>,
    g: Gap,
    k: nat,
    tail: Seq<char>,
)
    requires
        ahead(c, next_text(bs, g, k, tail)),
        gap_is(before, next_gap(bs, g)),
        indent.len() == next_indent(bs, k),
        indent.forward(),
        bodies_ok(bs, n),
        remarks_ok(g.remarks),
        solid(tail),
        k <= n,
    ensures
        ({
            let b = for_body(c, n as int, before, indent);
            &&& bodies_are(b.value, bs)
            &&& done(b, c, g, k, tail)
        }),
    decreases bs,
{
    if bs.len() > 0 {
        let rest = bs.subrange(1, bs.len() as int);
        let m = bs[0].indent;
        let i = item(c, m as int);
        lemma_next(rest, n, g, k, tail);
        assert(rest.len() > 0 ==> rest[0] == bs[1]);
        lemma_item_of(
            c,
            m,
            bs[0].item,
            next_gap(rest, g),
            next_indent(rest, k),
            next_text(rest, g, k, tail),
        );
        lemma_bodies_of(i.next, n, i.filler, i.indent, rest, g, k, tail);
        lemma_item_start(bs[0].item, m);
        assert(c.rest().len() > i.next.rest().len());
        assert(c.advances(i.next) && !c.at_end());
        let b = for_body(i.next, n as int, i.filler, i.indent);
        let whole = for_body(c, n as int, before, indent);
        assert(whole == body_with_rest(before, indent, i, b));
        assert(whole.value.skip(1) =~= b.value);
    }
}

// ---------------------------------------------------------------------- files

/// A file in the plain form: what it opens with, and its statements, each with what
/// stands behind it.
pub struct PlainFile {
    pub opening: Gap,
    pub items: Seq<(PlainItem, Gap)>,
}

pub open spec fn statements_text(xs: Seq<(PlainItem, Gap)>) -> Seq<char>
    decreases xs.len(),
{
    if xs.len() == 0 {
        seq![]
    } else {
        item_text(xs[0].0) + gap_text(xs[0].1) + statements_text(xs.skip(1))
    }
}

/// How a file is spelled.
pub open spec fn file_text(f: PlainFile) -> Seq<char> {
    gap_text(f.opening) + statements_text(f.items)
}

pub open spec fn statements_ok(xs: Seq<(PlainItem, Gap)>) -> bool {
    forall|i: int|
        0 <= i < xs.len() ==> item_ok((#[trigger] xs[i]).0, 0) && remarks_ok(xs[i].1.remarks)
}

pub open spec fn file_ok(f: PlainFile) -> bool {
    remarks_ok(f.opening.remarks) && statements_ok(f.items)
}

pub open spec fn statements_are(v: ItemsView, xs: Seq<(PlainItem, Gap)>) -> bool {
    v.len() == xs.len() && forall|i: int|
        0 <= i < xs.len() ==> item_is((#[trigger] v[i]).0, xs[i].0) && gap_is(v[i].1, xs[i].1)
}

/// What is read of a file.
pub open spec fn file_is(v: MexFileView, f: PlainFile) -> bool {
    gap_is(v.opening_filler, f.opening) && statements_are(v.items, f.items)
}

proof fn lemma_statements_start(xs: Seq<(PlainItem, Gap)>)
    requires
        statements_ok(xs),
    ensures
        solid(statements_text(xs)),
        xs.len() > 0 ==> statements_text(xs).len() > 0,
{
    if xs.len() > 0 {
        assert(item_ok(xs[0].0, 0));
        lemma_item_start(xs[0].0, 0);
        assert(statements_text(xs)[0] == item_text(xs[0].0)[0]);
    }
}

proof fn lemma_statements_of(c: Cursor, indent: SpanView, xs: Seq<(PlainItem, Gap)>)
    requires
        ahead(c, statements_text(xs)),
        statements_ok(xs),
        indent.len() == 0,
    ensures
        ({
            let p = items(c, indent);
            &&& statements_are(p.value, xs)
            &&& p.errors.len() == 0
        }),
    decreases xs.len(),
{
    lemma_peek(c, statements_text(xs));
    lemma_statements_start(xs);
    if xs.len() > 0 {
        let rest = xs.skip(1);
        let i = item(c, 0);
        let tail = statements_text(rest);
        assert forall|j: int| 0 <= j < rest.len() implies item_ok((#[trigger] rest[j]).0, 0)
            && remarks_ok(rest[j].1.remarks) by {
            assert(rest[j] == xs[j + 1]);
        }
        lemma_statements_start(rest);
        assert(item_ok(xs[0].0, 0));
        assert(statements_text(xs) =~= item_text(xs[0].0) + (gap_text(xs[0].1) + (spaces(0)
            + tail)));
        lemma_item_of(c, 0, xs[0].0, xs[0].1, 0, tail);
        lemma_item_start(xs[0].0, 0);
        assert(c.rest().len() > i.next.rest().len());
        assert(c.advances(i.next));
        lemma_statements_of(i.next, i.indent, rest);
        let p = items(c, indent);
        let q = items(i.next, i.indent);
        assert(p.value == seq![(i.value, i.filler)] + q.value);
        assert forall|j: int| 0 <= j < xs.len() implies item_is((#[trigger] p.value[j]).0, xs[j].0)
            && gap_is(p.value[j].1, xs[j].1) by {
            if j > 0 {
                assert(p.value[j] == q.value[j - 1]);
                assert(rest[j - 1] == xs[j]);
            }
        }
    }
}

/// A plain file is read as what it says, and nothing is wrong with it.
pub proof fn law_plain_file_is_read(c: Cursor, f: PlainFile)
    requires
        c.wf(),
        c.rest() == file_text(f),
        file_ok(f),
    ensures
        file_is(file(c).value, f),
        file(c).errors.len() == 0,
{
    let tail = statements_text(f.items);
    lemma_statements_start(f.items);
    assert(file_text(f) =~= gap_text(f.opening) + (spaces(0) + tail));
    lemma_gap_white(c, f.opening, 0, tail);
    let w = whitespace(filler(c).next);
    lemma_statements_of(w.next, w.value, f.items);
}

} // verus!
