//! What holds of statements: how they are indented, and what their lines say.

use vstd::prelude::*;

use crate::code::{Cursor, SpanView};
use crate::grammar::{varname, whitespace};
use crate::laws::{law_bindings_are_indented, law_body_is_indented};
use crate::plain::{ahead, spaces};
use crate::plain_stmt::{
    binds_text, build_is, build_line, build_ok, gap_is, gap_text, lemma_build_of, remarks_ok, solid,
    Gap, PlainBuild,
};
use crate::plain_write::lemma_write_build;
use crate::progress::{
    lemma_build_inputs, lemma_build_outputs, lemma_filler, lemma_for_header, lemma_for_word,
    lemma_header, lemma_item, lemma_line_end, lemma_paths, lemma_section, lemma_varname,
    lemma_whitespace, lemma_with_filler,
};
use crate::stmt::{BindingsView, FillerView, ForBodyItemView, ItemView};
use crate::syntax::{
    build_inputs, build_outputs, build_stmt, file, filler, for_body, for_header, header, item,
    items, paths, pool_stmt, rule_stmt, section, simple_item, with_filler, BlockKind,
};

verus! {

// ----------------------------------------------------------------- indentation

/// Each of the bindings is indented by more than `n`.
pub open spec fn bound_below(v: BindingsView, n: int) -> bool {
    forall|i: int| 0 <= i < v.len() ==> (#[trigger] v[i]).1.indent_span.len() > n
}

/// The bindings of a rule are indented by more than the rule is, and what follows it is
/// not.
pub proof fn law_rule_holds_what_is_indented(c: Cursor, n: int, span: SpanView)
    requires
        c.wf(),
        n >= 0,
    ensures
        bound_below(rule_stmt(c, n, span).value.bindings, n),
        rule_stmt(c, n, span).indent.len() <= n,
{
    reveal(rule_stmt);
    let h = header(c, "expected a rule name"@, " <rule_name>"@);
    lemma_header(c, "expected a rule name"@, " <rule_name>"@);
    law_bindings_are_indented(h.next, BlockKind::Rule, n, span.join(h.value.span));
}

/// The bindings of a pool are indented by more than the pool is, and what follows it is
/// not.
pub proof fn law_pool_holds_what_is_indented(c: Cursor, n: int, span: SpanView)
    requires
        c.wf(),
        n >= 0,
    ensures
        bound_below(pool_stmt(c, n, span).value.bindings, n),
        pool_stmt(c, n, span).indent.len() <= n,
{
    reveal(pool_stmt);
    let h = header(c, "expected a pool name"@, "<pool_name>"@);
    lemma_header(c, "expected a pool name"@, "<pool_name>"@);
    law_bindings_are_indented(h.next, BlockKind::Pool, n, span.join(h.value.span));
}

/// The bindings of a `build` are indented by more than it is, and what follows it is not.
pub proof fn law_build_holds_what_is_indented(c: Cursor, n: int, span: SpanView)
    requires
        c.wf(),
        n >= 0,
    ensures
        bound_below(build_stmt(c, n, span).value.bindings, n),
        build_stmt(c, n, span).indent.len() <= n,
{
    reveal(build_stmt);
    let o = build_outputs(c);
    lemma_build_outputs(c);
    lemma_build_inputs(o.next);
    law_bindings_are_indented(build_inputs(o.next).next, BlockKind::Build, n, span);
}

/// All that belongs to a statement which is indented by `n` is indented by more, and so is
/// all that belongs to the statements in its body, each by more than that statement.
pub open spec fn nested(i: ItemView, n: int) -> bool
    decreases i,
{
    match i {
        ItemView::Let(_) => true,
        ItemView::Default(_) => true,
        ItemView::Rule(s) => bound_below(s.bindings, n),
        ItemView::Build(s) => bound_below(s.bindings, n),
        ItemView::Pool(s) => bound_below(s.bindings, n),
        ItemView::For(s) => body_nested(s.items, n),
    }
}

/// The statements of a body are indented by more than `n`, each with what belongs to it.
pub open spec fn body_nested(v: Seq<ForBodyItemView>, n: int) -> bool
    decreases v,
{
    v.len() > 0 ==> {
        &&& v[0].indent_span.len() > n
        &&& nested(v[0].item, v[0].indent_span.len())
        &&& body_nested(v.subrange(1, v.len() as int), n)
    }
}

/// A statement holds what is indented by more than it is, at any depth, and, unless it
/// is of one line, what follows it is not.
pub proof fn law_statement_holds_what_is_indented(c: Cursor, n: int)
    requires
        c.wf(),
        n >= 0,
    ensures
        nested(item(c, n).value, n),
        item(c, n).value is Let || item(c, n).value is Default || item(c, n).indent.len() <= n,
    decreases c.left(), 1nat,
{
    let (name, d) = varname(c, false);
    lemma_varname(c, false);
    if name.name == "for"@ {
        lemma_for_word(c);
        lemma_for_header(d);
        lemma_with_filler(for_header(d));
        let h = with_filler(for_header(d));
        lemma_forward(for_header(d).next);
        lemma_body_nested(h.next, n, h.filler, h.indent);
    } else {
        reveal(simple_item);
        law_rule_holds_what_is_indented(d, n, name.span);
        law_build_holds_what_is_indented(d, n, name.span);
        law_pool_holds_what_is_indented(d, n, name.span);
    }
}

proof fn lemma_forward(c: Cursor)
    requires
        c.wf(),
    ensures
        whitespace(filler(c).next).value.forward(),
{
    lemma_filler(c);
    lemma_whitespace(filler(c).next);
}

proof fn lemma_body_nested(c: Cursor, n: int, before: FillerView, indent: SpanView)
    requires
        c.wf(),
        n >= 0,
        indent.forward(),
    ensures
        body_nested(for_body(c, n, before, indent).value, n),
        for_body(c, n, before, indent).indent.len() <= n,
    decreases c.left(), 2nat,
{
    let b = for_body(c, n, before, indent);
    law_body_is_indented(c, n, before, indent);
    if indent.len() > n {
        let i = item(c, indent.len());
        lemma_item(c, indent.len());
        law_statement_holds_what_is_indented(c, indent.len());
        assert(b.value[0].item == i.value && b.value[0].indent_span == indent);
        let rest = b.value.subrange(1, b.value.len() as int);
        if c.advances(i.next) && !c.at_end() {
            lemma_body_nested(i.next, n, i.filler, i.indent);
            assert(rest =~= for_body(i.next, n, i.filler, i.indent).value);
        } else {
            assert(rest.len() == 0);
        }
        assert(body_nested(rest, n));
    }
}

proof fn lemma_nested_less(i: ItemView, n: int)
    requires
        nested(i, n),
        n >= 0,
    ensures
        nested(i, 0),
{
    match i {
        ItemView::For(s) => {
            lemma_body_nested_less(s.items, n);
        },
        _ => {},
    }
}

proof fn lemma_body_nested_less(v: Seq<ForBodyItemView>, n: int)
    requires
        body_nested(v, n),
        n >= 0,
    ensures
        body_nested(v, 0),
    decreases v.len(),
{
    if v.len() > 0 {
        lemma_body_nested_less(v.subrange(1, v.len() as int), n);
    }
}

/// In the tree of a file, what belongs to a statement is indented by more than the
/// statement is, at any depth.
pub proof fn law_file_is_nested(c: Cursor)
    requires
        c.wf(),
    ensures
        forall|i: int|
            0 <= i < file(c).value.items.len() ==> nested(
                (#[trigger] file(c).value.items[i]).0,
                0,
            ),
{
    let f = filler(c);
    lemma_filler(c);
    lemma_whitespace(f.next);
    let w = whitespace(f.next);
    lemma_items_nested(w.next, w.value);
}

proof fn lemma_items_nested(c: Cursor, indent: SpanView)
    requires
        c.wf(),
        indent.forward(),
    ensures
        forall|i: int|
            0 <= i < items(c, indent).value.len() ==> nested(
                (#[trigger] items(c, indent).value[i]).0,
                0,
            ),
    decreases c.left(),
{
    if !c.at_end() {
        let n = indent.len();
        let i = item(c, n);
        let v = items(c, indent).value;
        lemma_item(c, n);
        law_statement_holds_what_is_indented(c, n);
        lemma_nested_less(i.value, n);
        if c.advances(i.next) {
            lemma_items_nested(i.next, i.indent);
            let rest = items(i.next, i.indent).value;
            assert(v == seq![(i.value, i.filler)] + rest);
            assert forall|k: int| 0 <= k < v.len() implies nested((#[trigger] v[k]).0, 0) by {
                if k > 0 {
                    assert(v[k] == rest[k - 1]);
                }
            }
        }
    }
}

// ----------------------------------------------------------------- build lines

/// The two characters stand side by side somewhere from `c` to `d`.
pub open spec fn holds_pair(c: Cursor, d: Cursor, a: char, b: char) -> bool {
    exists|k: int| c.at <= k < d.at - 1 && #[trigger] c.text[k] == a && c.text[k + 1] == b
}

proof fn lemma_section_sign(c: Cursor, sign: Seq<char>)
    requires
        c.wf(),
    ensures
        c.reaches(section(c, sign).next),
        section(c, sign).value.len() > 0 ==> c.sees_text(sign) && section(c, sign).next.at >= c.at
            + sign.len(),
{
    reveal(section);
    lemma_section(c, sign);
    if c.sees_text(sign) {
        lemma_paths(c.skip(sign.len() as int));
    }
}

/// Order-only dependencies are announced by `||`, validations by `|@`, and implicit
/// dependencies by `|`: without the sign there are none.
pub proof fn law_sections_are_announced(c: Cursor)
    requires
        c.wf(),
    ensures
        ({
            let i = build_inputs(c);
            &&& i.value.order_only_deps.len() > 0 ==> holds_pair(c, i.next, '|', '|')
            &&& i.value.validations.len() > 0 ==> holds_pair(c, i.next, '|', '@')
            &&& i.value.implicit_deps.len() > 0 ==> exists|k: int|
                c.at <= k < i.next.at && #[trigger] c.text[k] == '|'
        }),
{
    reveal(build_inputs);
    reveal_strlit("|");
    reveal_strlit("||");
    reveal_strlit("|@");
    assert("|"@ =~= seq!['|']);
    assert("||"@ =~= seq!['|', '|']);
    assert("|@"@ =~= seq!['|', '@']);
    lemma_paths(c);
    let c1 = paths(c).next;
    lemma_section_sign(c1, "|"@);
    let c2 = section(c1, "|"@).next;
    lemma_section_sign(c2, "||"@);
    let c3 = section(c2, "||"@).next;
    lemma_section_sign(c3, "|@"@);
    let c4 = section(c3, "|@"@).next;
    lemma_line_end(c4, true, false);
    let i = build_inputs(c);
    if i.value.implicit_deps.len() > 0 {
        assert(c1.text.subrange(c1.at, c1.at + 1)[0] == c.text[c1.at]);
    }
    if i.value.order_only_deps.len() > 0 {
        assert(c2.text.subrange(c2.at, c2.at + 2)[0] == c.text[c2.at]);
        assert(c2.text.subrange(c2.at, c2.at + 2)[1] == c.text[c2.at + 1]);
    }
    if i.value.validations.len() > 0 {
        assert(c3.text.subrange(c3.at, c3.at + 2)[0] == c.text[c3.at]);
        assert(c3.text.subrange(c3.at, c3.at + 2)[1] == c.text[c3.at + 1]);
    }
}

/// A plain `build` is read into exactly the paths that it names, each in its own list,
/// without an error, and is written as it was read.
#[verifier::rlimit(60)]
pub proof fn law_plain_build_is_kept(
    c: Cursor,
    n: nat,
    span: SpanView,
    b: PlainBuild,
    g: Gap,
    k: nat,
    tail: Seq<char>,
)
    requires
        ahead(c, build_line(b) + (binds_text(b.binds) + (gap_text(g) + (spaces(k) + tail)))),
        build_ok(b, n),
        remarks_ok(g.remarks),
        solid(tail),
        k <= n,
    ensures
        ({
            let s = build_stmt(c, n as int, span);
            &&& build_is(s.value, b)
            &&& s.errors.len() == 0
            &&& gap_is(s.filler, g)
            &&& s.indent.len() == k
            &&& s.next.rest() == tail
            &&& s.value.text() == seq!['b', 'u', 'i', 'l', 'd'] + (build_line(b) + binds_text(
                b.binds,
            ))
        }),
{
    lemma_build_of(c, n, span, b, g, k, tail);
    lemma_write_build(build_stmt(c, n as int, span).value, b, n);
}

} // verus!
