//! Statements in the plain form: what is read of them.

use vstd::prelude::*;

use crate::ast::VarnameView;
use crate::code::{Cursor, SpanView};
use crate::grammar::{blanks, in_line, is_space, lemma_scan_is, scan, varname, whitespace};
use crate::plain::{
    ahead, breaks, is_name, joined, lemma_ahead, lemma_blanks_run, lemma_name, lemma_paths_list,
    lemma_peek, lemma_value_word, lemma_white, lemma_word_start, list_ends, name_code, no_white,
    parts_ok, paths_ok, spaces, white_code, word_is, word_text, words_are, Part,
};
use crate::stmt::{BindingView, BindingsView, BuildView, CommentView, FillerView, LetView};
use crate::syntax::{
    binding, blank_lines, block, build_inputs, build_outputs, build_stmt, comment, comments,
    default_stmt, filler, for_header, header, let_stmt, line_end, pool_stmt, rule_stmt, section,
    BlockKind, Stmt,
};

verus! {

// ------------------------------------------------------------------- sections

/// Paths behind a sign. The sign is left out where there are none.
pub open spec fn section_of(sign: Seq<char>, ws: Seq<Seq<Part>>) -> Seq<char> {
    if ws.len() == 0 {
        seq![]
    } else {
        seq![' '] + sign + joined(ws)
    }
}

/// `s` without a space at its head.
pub open spec fn cut(s: Seq<char>) -> Seq<char> {
    if s.len() > 0 && s[0] == ' ' {
        s.skip(1)
    } else {
        s
    }
}

/// `s` begins with `sign`.
pub open spec fn begins(s: Seq<char>, sign: Seq<char>) -> bool {
    s.len() >= sign.len() && s.take(sign.len() as int) == sign
}

pub proof fn lemma_sees_text(c: Cursor, s: Seq<char>, sign: Seq<char>)
    requires
        ahead(c, s),
    ensures
        c.sees_text(sign) <==> begins(s, sign),
{
    let n = sign.len() as int;
    assert(c.rest().len() == s.len());
    if s.len() >= n {
        assert(c.text.subrange(c.at, c.at + n) =~= c.rest().take(n));
    }
}

/// A list of paths is read up to the sign or the line break behind it.
pub proof fn lemma_list_cut(c: Cursor, ws: Seq<Seq<Part>>, after: Seq<char>)
    requires
        paths_ok(ws),
        list_ends(cut(after)),
        ahead(c, joined(ws) + after),
    ensures
        words_are(crate::syntax::paths(c).value, ws),
        ahead(crate::syntax::paths(c).next, cut(after)),
        crate::syntax::paths(c).next.text == c.text,
        crate::syntax::paths(c).errors.len() == 0,
{
    let g: nat = if after.len() > 0 && after[0] == ' ' {
        1
    } else {
        0
    };
    assert(after =~= spaces(g) + cut(after));
    lemma_paths_list(c, ws, g, cut(after));
}

/// A section is read where its sign stands, and only there.
pub proof fn lemma_section_of(
    c: Cursor,
    sign: Seq<char>,
    ws: Seq<Seq<Part>>,
    after: Seq<char>,
)
    requires
        paths_ok(ws),
        list_ends(cut(after)),
        ahead(c, cut(section_of(sign, ws) + after)),
        ws.len() == 0 ==> !begins(cut(after), sign),
    ensures
        words_are(section(c, sign).value, ws),
        ahead(section(c, sign).next, cut(after)),
        section(c, sign).next.text == c.text,
        section(c, sign).errors.len() == 0,
{
    reveal(section);
    let s = cut(section_of(sign, ws) + after);
    lemma_sees_text(c, s, sign);
    if ws.len() == 0 {
        assert(section_of(sign, ws) + after =~= after);
    } else {
        assert(s =~= sign + (joined(ws) + after));
        assert(s.take(sign.len() as int) =~= sign);
        lemma_ahead(c, sign, joined(ws) + after);
        lemma_list_cut(c.skip(sign.len() as int), ws, after);
    }
}

// --------------------------------------------------------------------- filler

/// A comment: the spaces before it, what follows its `#`, and how many line feeds
/// follow that.
pub struct Remark {
    pub indent: nat,
    pub text: Seq<char>,
    pub feeds: nat,
}

/// What stands between two statements: line feeds, and then comments.
pub struct Gap {
    pub feeds: nat,
    pub remarks: Seq<Remark>,
}

pub open spec fn remark_text(r: Remark) -> Seq<char> {
    spaces(r.indent) + seq!['#'] + r.text + breaks(r.feeds)
}

pub open spec fn remarks_text(rs: Seq<Remark>) -> Seq<char>
    decreases rs.len(),
{
    if rs.len() == 0 {
        seq![]
    } else {
        remark_text(rs[0]) + remarks_text(rs.skip(1))
    }
}

pub open spec fn gap_text(g: Gap) -> Seq<char> {
    breaks(g.feeds) + remarks_text(g.remarks)
}

pub open spec fn remark_ok(r: Remark) -> bool {
    r.feeds > 0 && forall|k: int| 0 <= k < r.text.len() ==> #[trigger] r.text[k] != '\n'
}

pub open spec fn remarks_ok(rs: Seq<Remark>) -> bool {
    forall|i: int| 0 <= i < rs.len() ==> remark_ok(#[trigger] rs[i])
}

/// What is read of a comment.
pub open spec fn remark_is(v: CommentView, r: Remark) -> bool {
    v.text == spaces(r.indent) + seq!['#'] + r.text && v.post_newlines == r.feeds
}

pub open spec fn remarks_are(v: Seq<CommentView>, rs: Seq<Remark>) -> bool {
    v.len() == rs.len() && forall|i: int| 0 <= i < rs.len() ==> remark_is(#[trigger] v[i], rs[i])
}

pub open spec fn gap_is(v: FillerView, g: Gap) -> bool {
    v.start_newlines == g.feeds && remarks_are(v.comments, g.remarks)
}

/// A statement begins at the head of `s`, or nothing follows.
pub open spec fn solid(s: Seq<char>) -> bool {
    s.len() > 0 ==> name_code(s[0]) || s[0] == '@' || s[0] == '!'
}

proof fn lemma_scan_spaces(c: Cursor, k: nat, tail: Seq<char>)
    requires
        ahead(c, spaces(k) + tail),
        tail.len() > 0 ==> tail[0] != ' ',
    ensures
        scan(c, is_space()) == c.skip(k as int),
        ahead(c.skip(k as int), tail),
{
    let d = c.skip(k as int);
    lemma_ahead(c, spaces(k), tail);
    assert forall|i: int| c.at <= i < d.at implies is_space()(#[trigger] c.text[i]) by {
        let j = i - c.at;
        assert(spaces(k)[j] == ' ');
        assert(c.text[c.at + j] == spaces(k)[j]);
    }
    lemma_scan_is(c, is_space(), d);
}

/// Line feeds are counted, up to a line that holds more than spaces.
proof fn lemma_feeds(c: Cursor, n: nat, k: nat, tail: Seq<char>)
    requires
        ahead(c, breaks(n) + (spaces(k) + tail)),
        tail.len() > 0 ==> tail[0] != ' ' && tail[0] != '\n' && tail[0] != '\r',
    ensures
        blank_lines(c) == (n, c.skip(n as int)),
        ahead(c.skip(n as int), spaces(k) + tail),
    decreases n,
{
    let rest = spaces(k) + tail;
    lemma_ahead(c, breaks(n), rest);
    if n == 0 {
        assert(breaks(n) + rest =~= rest);
        lemma_scan_spaces(c, k, tail);
        lemma_peek(c.skip(k as int), tail);
    } else {
        let n1 = (n - 1) as nat;
        assert(breaks(n) + rest =~= seq!['\n'] + (breaks(n1) + rest));
        lemma_peek(c, breaks(n) + rest);
        assert(breaks(n) + rest =~= spaces(0) + (seq!['\n'] + (breaks(n1) + rest)));
        lemma_scan_spaces(c, 0, seq!['\n'] + (breaks(n1) + rest));
        lemma_ahead(c, seq!['\n'], breaks(n1) + rest);
        lemma_feeds(c.skip(1), n1, k, tail);
        assert(c.skip(1).skip(n1 as int) == c.skip(n as int));
    }
}

/// The head of the text that follows the line feeds of a gap.
proof fn lemma_remarks_head(rs: Seq<Remark>, k: nat, tail: Seq<char>) -> (r: (nat, Seq<char>))
    requires
        remarks_ok(rs),
        solid(tail),
    ensures
        remarks_text(rs) + (spaces(k) + tail) == spaces(r.0) + r.1,
        r.1.len() > 0 ==> r.1[0] != ' ' && r.1[0] != '\n' && r.1[0] != '\r',
        rs.len() > 0 ==> r.0 == rs[0].indent && r.1.len() > 0 && r.1[0] == '#',
        rs.len() == 0 ==> r == (k, tail),
{
    if rs.len() == 0 {
        assert(remarks_text(rs) + (spaces(k) + tail) =~= spaces(k) + tail);
        (k, tail)
    } else {
        let t = seq!['#'] + rs[0].text + breaks(rs[0].feeds) + remarks_text(rs.skip(1)) + (spaces(k)
            + tail);
        assert(remarks_text(rs) + (spaces(k) + tail) =~= spaces(rs[0].indent) + t);
        (rs[0].indent, t)
    }
}

proof fn lemma_remarks(c: Cursor, rs: Seq<Remark>, k: nat, tail: Seq<char>)
    requires
        ahead(c, remarks_text(rs) + (spaces(k) + tail)),
        remarks_ok(rs),
        solid(tail),
    ensures
        remarks_are(comments(c).value, rs),
        ahead(comments(c).next, spaces(k) + tail),
        comments(c).next.text == c.text,
        comments(c).errors.len() == 0,
    decreases rs.len(),
{
    let (j, t) = lemma_remarks_head(rs, k, tail);
    lemma_scan_spaces(c, j, t);
    lemma_peek(c.skip(j as int), t);
    if rs.len() == 0 {
        assert(remarks_text(rs) + (spaces(k) + tail) =~= spaces(k) + tail);
    } else {
        let r = rs[0];
        let rs1 = rs.skip(1);
        let end = remarks_text(rs1) + (spaces(k) + tail);
        assert(remark_ok(r));
        assert forall|i: int| 0 <= i < rs1.len() implies remark_ok(#[trigger] rs1[i]) by {
            assert(rs1[i] == rs[i + 1]);
        }
        let head = spaces(r.indent) + seq!['#'];
        let more = (r.feeds - 1) as nat;
        let after = seq!['\n'] + (breaks(more) + end);
        assert(remarks_text(rs) + (spaces(k) + tail) =~= head + (r.text + after));
        lemma_ahead(c, head, r.text + after);
        let d = c.skip(head.len() as int);
        assert(scan(c, is_space()).skip(1) == d);
        lemma_ahead(d, r.text, after);
        let e = d.skip(r.text.len() as int);
        assert forall|i: int| d.at <= i < e.at implies in_line()(#[trigger] d.text[i]) by {
            let m = i - d.at;
            assert(r.text[m] != '\n');
            assert(d.text[d.at + m] == r.text[m]);
        }
        lemma_scan_is(d, in_line(), e);
        lemma_ahead(e, seq!['\n'], breaks(more) + end);
        let (j1, t1) = lemma_remarks_head(rs1, k, tail);
        lemma_feeds(e.skip(1), more, j1, t1);
        let o = comment(c);
        assert(o.next == e.skip(1).skip(more as int));
        assert(head + r.text + after =~= head + (r.text + after));
        lemma_ahead(c, head + r.text, after);
        assert(c.skip((head + r.text).len() as int) == e);
        assert(o.value.text == head + r.text);
        assert(!c.at_end());
        lemma_remarks(o.next, rs1, k, tail);
        let rest = comments(o.next);
        assert(comments(c).value == seq![o.value] + rest.value);
        assert forall|i: int| 0 <= i < rs.len() implies remark_is(
            #[trigger] comments(c).value[i],
            rs[i],
        ) by {
            if i > 0 {
                assert(comments(c).value[i] == rest.value[i - 1]);
                assert(rs1[i - 1] == rs[i]);
            }
        }
    }
}

/// Line feeds and comments are read up to the indentation of the next statement.
pub proof fn lemma_gap(c: Cursor, g: Gap, k: nat, tail: Seq<char>)
    requires
        ahead(c, gap_text(g) + (spaces(k) + tail)),
        remarks_ok(g.remarks),
        solid(tail),
    ensures
        gap_is(filler(c).value, g),
        ahead(filler(c).next, spaces(k) + tail),
        filler(c).next.text == c.text,
        filler(c).errors.len() == 0,
{
    reveal(filler);
    let rest = remarks_text(g.remarks) + (spaces(k) + tail);
    let (j, t) = lemma_remarks_head(g.remarks, k, tail);
    assert(gap_text(g) + (spaces(k) + tail) =~= breaks(g.feeds) + rest);
    lemma_feeds(c, g.feeds, j, t);
    lemma_remarks(c.skip(g.feeds as int), g.remarks, k, tail);
}

/// A gap, and the indentation behind it.
pub proof fn lemma_gap_white(c: Cursor, g: Gap, k: nat, tail: Seq<char>)
    requires
        ahead(c, gap_text(g) + (spaces(k) + tail)),
        remarks_ok(g.remarks),
        solid(tail),
    ensures
        gap_is(filler(c).value, g),
        filler(c).errors.len() == 0,
        ({
            let w = whitespace(filler(c).next);
            &&& w.value.len() == k
            &&& w.errors.len() == 0
            &&& ahead(w.next, tail)
            &&& w.next.text == c.text
            &&& w.value.forward()
        }),
{
    lemma_gap(c, g, k, tail);
    lemma_white(filler(c).next, k, tail);
}

// ---------------------------------------------------------------- assignments

/// A value, which no white space stands before.
pub open spec fn value_ok(w: Seq<Part>) -> bool {
    parts_ok(w, false) && (w.len() > 0 && w[0] is Lit ==> !white_code(w[0]->Lit_0[0]))
}

/// `name = value`
pub open spec fn let_line(name: Seq<char>, value: Seq<Part>) -> Seq<char> {
    name + seq![' ', '=', ' '] + word_text(value) + seq!['\n']
}

/// What is read of an assignment.
pub open spec fn let_is(v: LetView, name: Seq<char>, value: Seq<Part>) -> bool {
    v.var.name == name && word_is(v.value, value)
}

pub proof fn lemma_let_behind(c: Cursor, var: VarnameView, value: Seq<Part>, tail: Seq<char>)
    requires
        ahead(c, seq![' ', '=', ' '] + word_text(value) + seq!['\n'] + tail),
        var.valid(),
        value_ok(value),
    ensures
        ({
            let l = let_stmt(c, var);
            &&& let_is(l.value, var.name, value)
            &&& ahead(l.next, tail)
            &&& l.next.text == c.text
            &&& l.errors.len() == 0
        }),
{
    reveal(let_stmt);
    let rest = word_text(value) + (seq!['\n'] + tail);
    let s = seq![' ', '=', ' '] + word_text(value) + seq!['\n'] + tail;
    assert(s =~= spaces(1) + (seq!['='] + (spaces(1) + rest)));
    lemma_white(c, 1, seq!['='] + (spaces(1) + rest));
    let d = c.skip(1);
    lemma_peek(d, seq!['='] + (spaces(1) + rest));
    lemma_ahead(d, seq!['='], spaces(1) + rest);
    let e = d.skip(1);
    assert(no_white(rest)) by {
        if value.len() > 0 {
            lemma_word_start(value, false, seq!['\n'] + tail);
        } else {
            assert(rest[0] == '\n');
        }
    }
    lemma_blanks_run(e, 1, rest);
    lemma_ahead(e, spaces(1), rest);
    lemma_value_word(blanks(e), value, tail);
}

/// A binding: what stands before it, how far it is indented, and what it binds.
pub struct Bind {
    pub gap: Gap,
    pub indent: nat,
    pub name: Seq<char>,
    pub value: Seq<Part>,
}

/// The signs that a rule can hold in the place of a name.
pub open spec fn is_sign(name: Seq<char>) -> bool {
    name == seq!['@'] || name == seq!['!']
}

pub open spec fn bind_line(b: Bind) -> Seq<char> {
    if is_sign(b.name) {
        b.name + word_text(b.value) + seq!['\n']
    } else {
        let_line(b.name, b.value)
    }
}

pub open spec fn bind_text(b: Bind) -> Seq<char> {
    gap_text(b.gap) + spaces(b.indent) + bind_line(b)
}

pub open spec fn binds_text(bs: Seq<Bind>) -> Seq<char>
    decreases bs.len(),
{
    if bs.len() == 0 {
        seq![]
    } else {
        bind_text(bs[0]) + binds_text(bs.skip(1))
    }
}

/// The variables that a rule may bind.
pub open spec fn rule_binds(name: Seq<char>) -> bool {
    ||| name == "command"@
    ||| name == "depfile"@
    ||| name == "dyndep"@
    ||| name == "description"@
    ||| name == "deps"@
    ||| name == "generator"@
    ||| name == "pool"@
    ||| name == "restat"@
    ||| name == "rspfile"@
    ||| name == "rspfile_content"@
    ||| name == "msvc_deps_prefix"@
}

/// A statement of this kind, which is indented by `n`, can hold the binding.
pub open spec fn bind_ok(b: Bind, kind: BlockKind, n: nat) -> bool {
    &&& b.indent > n
    &&& remarks_ok(b.gap.remarks)
    &&& if kind == BlockKind::Rule && is_sign(b.name) {
        parts_ok(b.value, false)
    } else {
        &&& is_name(b.name)
        &&& value_ok(b.value)
        &&& kind == BlockKind::Rule ==> rule_binds(b.name)
        &&& kind == BlockKind::Pool ==> b.name == "depth"@
    }
}

pub open spec fn binds_ok(bs: Seq<Bind>, kind: BlockKind, n: nat) -> bool {
    forall|i: int| 0 <= i < bs.len() ==> bind_ok(#[trigger] bs[i], kind, n)
}

/// What is read of a binding.
pub open spec fn bind_is(v: (FillerView, BindingView), b: Bind) -> bool {
    &&& gap_is(v.0, b.gap)
    &&& v.1.indent_span.len() == b.indent
    &&& let_is(v.1.let_stmt, b.name, b.value)
}

pub open spec fn binds_are(v: BindingsView, bs: Seq<Bind>) -> bool {
    v.len() == bs.len() && forall|i: int| 0 <= i < bs.len() ==> bind_is(#[trigger] v[i], bs[i])
}

pub proof fn lemma_bind_line(
    c: Cursor,
    kind: BlockKind,
    n: nat,
    while_parsing: SpanView,
    b: Bind,
    tail: Seq<char>,
)
    requires
        ahead(c, bind_line(b) + tail),
        bind_ok(b, kind, n),
    ensures
        ({
            let (p, kept) = binding(c, kind, while_parsing);
            &&& let_is(p.value, b.name, b.value)
            &&& ahead(p.next, tail)
            &&& p.next.text == c.text
            &&& p.errors.len() == 0
            &&& kept
        }),
        solid(bind_line(b) + tail),
{
    reveal(binding);
    let s = bind_line(b) + tail;
    lemma_peek(c, s);
    if kind == BlockKind::Rule && is_sign(b.name) {
        assert(s =~= b.name + (word_text(b.value) + (seq!['\n'] + tail)));
        lemma_ahead(c, b.name, word_text(b.value) + (seq!['\n'] + tail));
        assert(s[0] == b.name[0]);
        lemma_value_word(c.skip(1), b.value, tail);
    } else {
        assert(name_code(b.name[0]));
        let rest = seq![' ', '=', ' '] + word_text(b.value) + seq!['\n'] + tail;
        assert(s =~= b.name + rest);
        assert(s[0] == b.name[0]);
        lemma_name(c, b.name, rest);
        lemma_ahead(c, b.name, rest);
        let (var, d) = varname(c, false);
        lemma_let_behind(d, var, b.value, tail);
    }
}

/// The lines that are indented further than a statement are its bindings, and nothing
/// else is.
pub proof fn lemma_block_of(
    c: Cursor,
    kind: BlockKind,
    n: nat,
    while_parsing: SpanView,
    bs: Seq<Bind>,
    g: Gap,
    k: nat,
    tail: Seq<char>,
)
    requires
        ahead(c, binds_text(bs) + (gap_text(g) + (spaces(k) + tail))),
        binds_ok(bs, kind, n),
        remarks_ok(g.remarks),
        solid(tail),
        k <= n,
    ensures
        ({
            let b = block(c, kind, n as int, while_parsing);
            &&& binds_are(b.bindings, bs)
            &&& gap_is(b.filler, g)
            &&& b.indent.len() == k
            &&& b.indent.forward()
            &&& ahead(b.next, tail)
            &&& b.next.text == c.text
            &&& b.errors.len() == 0
        }),
    decreases bs.len(),
{
    let end = gap_text(g) + (spaces(k) + tail);
    let f = filler(c);
    let w = whitespace(f.next);
    let whole = block(c, kind, n as int, while_parsing);
    if bs.len() == 0 {
        assert(binds_text(bs) + end =~= end);
        lemma_gap_white(c, g, k, tail);
    } else {
        let b = bs[0];
        let bs1 = bs.skip(1);
        let after = binds_text(bs1) + end;
        assert(bind_ok(b, kind, n));
        assert(binds_text(bs) + end =~= gap_text(b.gap) + (spaces(b.indent) + (bind_line(b)
            + after)));
        assert(solid(bind_line(b) + after)) by {
            if is_sign(b.name) {
                assert((bind_line(b) + after)[0] == b.name[0]);
            } else {
                assert(name_code(b.name[0]));
                assert((bind_line(b) + after)[0] == b.name[0]);
            }
        }
        lemma_gap_white(c, b.gap, b.indent, bind_line(b) + after);
        lemma_bind_line(w.next, kind, n, while_parsing, b, after);
        let (p, kept) = binding(w.next, kind, while_parsing);
        assert forall|i: int| 0 <= i < bs1.len() implies bind_ok(#[trigger] bs1[i], kind, n) by {
            assert(bs1[i] == bs[i + 1]);
        }
        assert(c.rest().len() > after.len());
        assert(c.advances(p.next) && !c.at_end());
        lemma_block_of(p.next, kind, n, while_parsing, bs1, g, k, tail);
        let rest = block(p.next, kind, n as int, while_parsing);
        let head = (f.value, BindingView { indent_span: w.value, let_stmt: p.value });
        assert(whole.bindings == seq![head] + rest.bindings);
        assert forall|i: int| 0 <= i < bs.len() implies bind_is(
            #[trigger] whole.bindings[i],
            bs[i],
        ) by {
            if i > 0 {
                assert(whole.bindings[i] == rest.bindings[i - 1]);
                assert(bs1[i - 1] == bs[i]);
            }
        }
    }
}

// ----------------------------------------------------------------- statements

/// What was read ends before `tail`, behind a gap and `k` spaces, and nothing is wrong
/// with it.
pub open spec fn done<T>(s: Stmt<T>, c: Cursor, g: Gap, k: nat, tail: Seq<char>) -> bool {
    &&& gap_is(s.filler, g)
    &&& s.indent.len() == k
    &&& s.indent.forward()
    &&& ahead(s.next, tail)
    &&& s.next.text == c.text
    &&& s.errors.len() == 0
}

pub proof fn lemma_header_of(
    c: Cursor,
    title: Seq<char>,
    expected: Seq<char>,
    name: Seq<char>,
    tail: Seq<char>,
)
    requires
        ahead(c, seq![' '] + name + seq!['\n'] + tail),
        is_name(name),
    ensures
        ({
            let h = header(c, title, expected);
            &&& h.value.name == name
            &&& ahead(h.next, tail)
            &&& h.next.text == c.text
            &&& h.errors.len() == 0
        }),
{
    reveal(header);
    reveal(line_end);
    let rest = seq!['\n'] + tail;
    assert(seq![' '] + name + seq!['\n'] + tail =~= spaces(1) + (name + rest));
    assert(name_code(name[0]));
    lemma_white(c, 1, name + rest);
    lemma_name(c.skip(1), name, rest);
    lemma_ahead(c.skip(1), name, rest);
    let d = c.skip(1).skip(name.len() as int);
    assert(rest =~= spaces(0) + rest);
    lemma_white(d, 0, rest);
    lemma_peek(d, rest);
    lemma_ahead(d, seq!['\n'], tail);
}

pub proof fn lemma_rule_of(
    c: Cursor,
    n: nat,
    span: SpanView,
    name: Seq<char>,
    bs: Seq<Bind>,
    g: Gap,
    k: nat,
    tail: Seq<char>,
)
    requires
        ahead(
            c,
            seq![' '] + name + seq!['\n'] + (binds_text(bs) + (gap_text(g) + (spaces(k) + tail))),
        ),
        is_name(name),
        binds_ok(bs, BlockKind::Rule, n),
        remarks_ok(g.remarks),
        solid(tail),
        k <= n,
    ensures
        ({
            let s = rule_stmt(c, n as int, span);
            &&& s.value.name.name == name
            &&& binds_are(s.value.bindings, bs)
            &&& done(s, c, g, k, tail)
        }),
{
    reveal(rule_stmt);
    let rest = binds_text(bs) + (gap_text(g) + (spaces(k) + tail));
    let h = header(c, "expected a rule name"@, " <rule_name>"@);
    lemma_header_of(c, "expected a rule name"@, " <rule_name>"@, name, rest);
    lemma_block_of(h.next, BlockKind::Rule, n, span.join(h.value.span), bs, g, k, tail);
}

pub proof fn lemma_pool_of(
    c: Cursor,
    n: nat,
    span: SpanView,
    name: Seq<char>,
    bs: Seq<Bind>,
    g: Gap,
    k: nat,
    tail: Seq<char>,
)
    requires
        ahead(
            c,
            seq![' '] + name + seq!['\n'] + (binds_text(bs) + (gap_text(g) + (spaces(k) + tail))),
        ),
        is_name(name),
        bs.len() > 0,
        binds_ok(bs, BlockKind::Pool, n),
        remarks_ok(g.remarks),
        solid(tail),
        k <= n,
    ensures
        ({
            let s = pool_stmt(c, n as int, span);
            &&& s.value.name.name == name
            &&& binds_are(s.value.bindings, bs)
            &&& done(s, c, g, k, tail)
        }),
{
    reveal(pool_stmt);
    let rest = binds_text(bs) + (gap_text(g) + (spaces(k) + tail));
    let h = header(c, "expected a pool name"@, "<pool_name>"@);
    lemma_header_of(c, "expected a pool name"@, "<pool_name>"@, name, rest);
    lemma_block_of(h.next, BlockKind::Pool, n, span.join(h.value.span), bs, g, k, tail);
}

/// A `build` and all that it names.
pub struct PlainBuild {
    pub outs: Seq<Seq<Part>>,
    pub implicit_outs: Seq<Seq<Part>>,
    pub rule: Seq<char>,
    pub deps: Seq<Seq<Part>>,
    pub implicit_deps: Seq<Seq<Part>>,
    pub order_only_deps: Seq<Seq<Part>>,
    pub validations: Seq<Seq<Part>>,
    pub binds: Seq<Bind>,
}

/// The line of a `build`, behind that word.
pub open spec fn build_line(b: PlainBuild) -> Seq<char> {
    joined(b.outs) + section_of(seq!['|'], b.implicit_outs) + seq![':', ' '] + b.rule + joined(
        b.deps,
    ) + section_of(seq!['|'], b.implicit_deps) + section_of(seq!['|', '|'], b.order_only_deps)
        + section_of(seq!['|', '@'], b.validations) + seq!['\n']
}

/// There is something to build, and the sections behind the dependencies can be told
/// apart, for which there have to be implicit ones.
pub open spec fn build_ok(b: PlainBuild, n: nat) -> bool {
    &&& b.outs.len() > 0 || b.implicit_outs.len() > 0
    &&& paths_ok(b.outs)
    &&& paths_ok(b.implicit_outs)
    &&& is_name(b.rule)
    &&& paths_ok(b.deps)
    &&& paths_ok(b.implicit_deps)
    &&& paths_ok(b.order_only_deps)
    &&& paths_ok(b.validations)
    &&& b.order_only_deps.len() > 0 || b.validations.len() > 0 ==> b.implicit_deps.len() > 0
    &&& binds_ok(b.binds, BlockKind::Build, n)
}

/// What is read of a `build`.
pub open spec fn build_is(v: BuildView, b: PlainBuild) -> bool {
    &&& words_are(v.outs, b.outs)
    &&& words_are(v.implicit_outs, b.implicit_outs)
    &&& v.rule.name == b.rule
    &&& words_are(v.deps, b.deps)
    &&& words_are(v.implicit_deps, b.implicit_deps)
    &&& words_are(v.order_only_deps, b.order_only_deps)
    &&& words_are(v.validations, b.validations)
    &&& binds_are(v.bindings, b.binds)
}

pub proof fn lemma_outputs_of(c: Cursor, b: PlainBuild, n: nat, tail: Seq<char>)
    requires
        ahead(
            c,
            joined(b.outs) + (section_of(seq!['|'], b.implicit_outs) + (seq![':', ' '] + (b.rule
                + tail))),
        ),
        build_ok(b, n),
        tail.len() > 0,
        !name_code(tail[0]),
    ensures
        ({
            let o = build_outputs(c);
            &&& words_are(o.value.0, b.outs)
            &&& words_are(o.value.1, b.implicit_outs)
            &&& o.value.2.name == b.rule
            &&& ahead(o.next, tail)
            &&& o.next.text == c.text
            &&& o.errors.len() == 0
        }),
{
    reveal(build_outputs);
    reveal_strlit("|");
    assert("|"@ =~= seq!['|']);
    let t2 = b.rule + tail;
    let t1 = seq![':', ' '] + t2;
    let t0 = section_of(seq!['|'], b.implicit_outs) + t1;
    assert(t1[0] == ':');
    if b.implicit_outs.len() > 0 {
        assert(t0[0] == ' ' && t0[1] == '|');
        assert(cut(t0)[0] == '|');
    } else {
        assert(t0 =~= t1);
    }
    lemma_list_cut(c, b.outs, t0);
    let p = crate::syntax::paths(c);
    assert(!begins(cut(t1), seq!['|'])) by {
        assert(t1.take(1)[0] == ':');
    }
    lemma_section_of(p.next, seq!['|'], b.implicit_outs, t1);
    let d = section(p.next, "|"@).next;
    assert(cut(t1) == t1);
    assert(t1 =~= seq![':'] + (spaces(1) + t2));
    lemma_peek(d, t1);
    lemma_ahead(d, seq![':'], spaces(1) + t2);
    assert(name_code(b.rule[0]));
    lemma_white(d.skip(1), 1, t2);
    lemma_name(d.skip(2), b.rule, tail);
    lemma_ahead(d.skip(2), b.rule, tail);
    assert(d.skip(1).skip(1) == d.skip(2));
}

pub proof fn lemma_inputs_of(c: Cursor, b: PlainBuild, n: nat, tail: Seq<char>)
    requires
        ahead(
            c,
            joined(b.deps) + (section_of(seq!['|'], b.implicit_deps) + (section_of(
                seq!['|', '|'],
                b.order_only_deps,
            ) + (section_of(seq!['|', '@'], b.validations) + (seq!['\n'] + tail)))),
        ),
        build_ok(b, n),
    ensures
        ({
            let i = build_inputs(c);
            &&& words_are(i.value.deps, b.deps)
            &&& words_are(i.value.implicit_deps, b.implicit_deps)
            &&& words_are(i.value.order_only_deps, b.order_only_deps)
            &&& words_are(i.value.validations, b.validations)
            &&& ahead(i.next, tail)
            &&& i.next.text == c.text
            &&& i.errors.len() == 0
        }),
{
    reveal(build_inputs);
    reveal(line_end);
    reveal_strlit("|");
    reveal_strlit("||");
    reveal_strlit("|@");
    let one = seq!['|'];
    let two = seq!['|', '|'];
    let at = seq!['|', '@'];
    assert("|"@ =~= one);
    assert("||"@ =~= two);
    assert("|@"@ =~= at);
    let t3 = seq!['\n'] + tail;
    let t2 = section_of(at, b.validations) + t3;
    let t1 = section_of(two, b.order_only_deps) + t2;
    let t0 = section_of(one, b.implicit_deps) + t1;
    lemma_tail_of(at, b.validations, t3);
    lemma_tail_of(two, b.order_only_deps, t2);
    lemma_tail_of(one, b.implicit_deps, t1);
    assert(!begins(t3, one) && !begins(t3, two) && !begins(t3, at)) by {
        assert(t3[0] == '\n');
        assert(t3.take(1)[0] == '\n');
        if t3.len() > 1 {
            assert(t3.take(2)[0] == '\n');
        }
    }
    lemma_list_cut(c, b.deps, t0);
    let c1 = crate::syntax::paths(c).next;
    if b.implicit_deps.len() == 0 {
        assert(section_of(at, b.validations) + t3 =~= t3);
        assert(section_of(two, b.order_only_deps) + t2 =~= t2);
    }
    lemma_section_of(c1, one, b.implicit_deps, t1);
    let c2 = section(c1, one).next;
    if b.order_only_deps.len() == 0 {
        assert(t1 =~= t2);
        if b.validations.len() > 0 {
            assert(cut(t2)[0] == '|' && cut(t2)[1] == '@');
            assert(cut(t2).take(2)[1] == '@');
            assert(two[1] == '|');
        } else {
            assert(t2 =~= t3);
        }
    }
    lemma_section_of(c2, two, b.order_only_deps, t2);
    let c3 = section(c2, two).next;
    if b.validations.len() == 0 {
        assert(t2 =~= t3);
    }
    lemma_section_of(c3, at, b.validations, t3);
    let c4 = section(c3, at).next;
    lemma_peek(c4, t3);
    lemma_ahead(c4, seq!['\n'], tail);
}

/// A section that may be missing ends the list before it.
proof fn lemma_tail_of(sign: Seq<char>, ws: Seq<Seq<Part>>, after: Seq<char>)
    requires
        sign.len() > 0,
        sign[0] == '|',
        list_ends(cut(after)),
    ensures
        list_ends(cut(section_of(sign, ws) + after)),
{
    let s = section_of(sign, ws) + after;
    if ws.len() == 0 {
        assert(s =~= after);
    } else {
        assert(s[0] == ' ' && s[1] == '|');
    }
}

#[verifier::rlimit(60)]
pub proof fn lemma_build_of(
    c: Cursor,
    n: nat,
    span: SpanView,
    b: PlainBuild,
    g: Gap,
    k: nat,
    tail: Seq<char>,
)
    requires
        ahead(c, build_line(b) + (binds_text(b.binds) + (gap_text(g) + (spaces(k) + tail)))),
        build_ok(b, n),
        remarks_ok(g.remarks),
        solid(tail),
        k <= n,
    ensures
        ({
            let s = build_stmt(c, n as int, span);
            &&& build_is(s.value, b)
            &&& done(s, c, g, k, tail)
        }),
{
    reveal(build_stmt);
    let rest = binds_text(b.binds) + (gap_text(g) + (spaces(k) + tail));
    let t3 = section_of(seq!['|', '@'], b.validations) + (seq!['\n'] + rest);
    let t2 = section_of(seq!['|', '|'], b.order_only_deps) + t3;
    let t1 = section_of(seq!['|'], b.implicit_deps) + t2;
    let t0 = joined(b.deps) + t1;
    let o = build_outputs(c);
    assert(build_line(b) + rest =~= joined(b.outs) + (section_of(seq!['|'], b.implicit_outs) + (
    seq![':', ' '] + (b.rule + t0))));
    assert(t0.len() > 0 && !name_code(t0[0])) by {
        if b.deps.len() > 0 {
            assert(t0[0] == ' ');
        } else {
            assert(t0 =~= t1);
            if b.implicit_deps.len() > 0 {
                assert(t1[0] == ' ');
            } else {
                assert(t1 =~= t2);
                assert(t2 =~= t3);
                assert(t3 =~= seq!['\n'] + rest);
            }
        }
    }
    lemma_outputs_of(c, b, n, t0);
    lemma_inputs_of(o.next, b, n, rest);
    lemma_block_of(build_inputs(o.next).next, BlockKind::Build, n, span, b.binds, g, k, tail);
}

pub proof fn lemma_default_of(c: Cursor, span: SpanView, ws: Seq<Seq<Part>>, tail: Seq<char>)
    requires
        ahead(c, joined(ws) + (seq!['\n'] + tail)),
        paths_ok(ws),
    ensures
        ({
            let p = default_stmt(c, span);
            &&& words_are(p.value.outs, ws)
            &&& ahead(p.next, tail)
            &&& p.next.text == c.text
            &&& p.errors.len() == 0
        }),
{
    reveal(default_stmt);
    reveal(line_end);
    lemma_list_cut(c, ws, seq!['\n'] + tail);
    let d = crate::syntax::paths(c).next;
    lemma_peek(d, seq!['\n'] + tail);
    lemma_ahead(d, seq!['\n'], tail);
}

pub proof fn lemma_for_header_of(c: Cursor, var: Seq<char>, values: Seq<Part>, tail: Seq<char>)
    requires
        ahead(
            c,
            seq![' '] + var + seq![' ', 'i', 'n', ' '] + word_text(values) + seq!['\n'] + tail,
        ),
        is_name(var),
        values_ok(values),
    ensures
        ({
            let p = for_header(c);
            &&& p.value.0.name == var
            &&& word_is(p.value.1, values)
            &&& ahead(p.next, tail)
            &&& p.next.text == c.text
            &&& p.errors.len() == 0
        }),
{
    reveal(for_header);
    reveal_strlit("in");
    let inn = seq!['i', 'n'];
    assert("in"@ =~= inn);
    let t3 = word_text(values) + (seq!['\n'] + tail);
    let t2 = spaces(1) + t3;
    let t1 = spaces(1) + (inn + t2);
    let s = seq![' '] + var + seq![' ', 'i', 'n', ' '] + word_text(values) + seq!['\n'] + tail;
    assert(s =~= spaces(1) + (var + t1));
    assert(name_code(var[0]));
    lemma_white(c, 1, var + t1);
    assert(t1[0] == ' ');
    lemma_name(c.skip(1), var, t1);
    lemma_ahead(c.skip(1), var, t1);
    let d = c.skip(1).skip(var.len() as int);
    lemma_white(d, 1, inn + t2);
    let e = d.skip(1);
    lemma_sees_text(e, inn + t2, inn);
    assert((inn + t2).take(2) =~= inn);
    lemma_ahead(e, inn, t2);
    lemma_word_start(values, false, seq!['\n'] + tail);
    lemma_white(e.skip(2), 1, t3);
    let f = e.skip(2).skip(1);
    lemma_peek(f, t3);
    crate::plain::law_characters_of_names(t3[0], false);
    lemma_value_word(f, values, tail);
}

/// Values over which a `for` goes: they begin with a character of a name.
pub open spec fn values_ok(w: Seq<Part>) -> bool {
    parts_ok(w, false) && w.len() > 0 && w[0] is Lit && name_code(w[0]->Lit_0[0])
}

} // verus!
