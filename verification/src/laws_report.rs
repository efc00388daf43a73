//! What is wrong with a part of a file is wrong with the whole: no error is lost on the way.

use vstd::prelude::*;

use crate::code::{Cursor, SpanView};
use crate::error::ErrorView;
use crate::grammar::{
    eval_from, eval_step, quoted, quoted_value, whitespace, EvalRules, Parsed, QuoteState,
};
use crate::progress::{
    lemma_binding, lemma_comment, lemma_eval_step, lemma_filler, lemma_item, lemma_path,
    lemma_whitespace,
};
use crate::stmt::FillerView;
use crate::syntax::{
    at_comment, binding, blank_lines, block, build_inputs, build_outputs, build_stmt, comment,
    comments, default_stmt, file, filler, for_body, for_header, for_stmt, header, item, items,
    line_end, path, paths, paths_from, pool_stmt, rule_stmt, section, with_filler, BlockKind,
};

verus! {

/// The errors of a part stand among those of the whole from number `k` on.
pub open spec fn kept_at(part: Seq<ErrorView>, whole: Seq<ErrorView>, k: int) -> bool {
    0 <= k && k + part.len() <= whole.len() && whole.subrange(k, k + part.len()) == part
}

/// The errors of a part stand among those of the whole, in the same order.
pub open spec fn kept(part: Seq<ErrorView>, whole: Seq<ErrorView>) -> bool {
    exists|k: int| kept_at(part, whole, k)
}

proof fn lemma_kept(part: Seq<ErrorView>, whole: Seq<ErrorView>, k: int)
    requires
        0 <= k,
        k + part.len() <= whole.len(),
        forall|i: int| 0 <= i < part.len() ==> whole[k + i] == #[trigger] part[i],
    ensures
        kept(part, whole),
{
    assert(whole.subrange(k, k + part.len()) =~= part);
    assert(kept_at(part, whole, k));
}

/// Where a text goes on behind a stretch of it, the errors of both are kept.
pub proof fn law_errors_of_texts_are_kept(c: Cursor, q: QuoteState, rules: EvalRules)
    requires
        c.wf(),
    ensures
        kept(eval_step(c, q, rules).errors, eval_from(c, q, rules).errors),
        eval_step(c, q, rules).more is Some ==> kept(
            eval_from(eval_step(c, q, rules).next, eval_step(c, q, rules).more->0, rules).errors,
            eval_from(c, q, rules).errors,
        ),
{
    let s = eval_step(c, q, rules);
    lemma_eval_step(c, q, rules);
    let all = eval_from(c, q, rules).errors;
    lemma_kept(s.errors, all, 0);
    if s.more is Some {
        let rest = eval_from(s.next, s.more->0, rules).errors;
        lemma_kept(rest, all, s.errors.len() as int);
    }
}

/// What is wrong with a value between quotes is kept.
pub proof fn law_errors_of_quoted_values_are_kept(c: Cursor, q: QuoteState)
    requires
        c.wf(),
        !c.skip(1).at_end(),
    ensures
        kept(quoted_value(c.skip(2)).0.errors, quoted(c, q).errors),
{
    let v = quoted_value(c.skip(2)).0.errors;
    lemma_kept(
        v,
        quoted(c, q).errors,
        if q.escape {
            1
        } else {
            0
        },
    );
}

/// The errors of paths, and of the white space between them, are kept.
pub proof fn law_errors_of_paths_are_kept(c: Cursor, sign: Seq<char>)
    requires
        c.wf(),
    ensures
        kept(path(c).errors, paths_from(c).errors),
        kept(whitespace(path(c).next).errors, paths_from(c).errors),
        path(c).value.pieces.len() > 0 ==> kept(
            paths_from(whitespace(path(c).next).next).errors,
            paths_from(c).errors,
        ),
        kept(whitespace(c).errors, paths(c).errors),
        kept(paths_from(whitespace(c).next).errors, paths(c).errors),
        c.sees_text(sign) ==> kept(
            paths(c.skip(sign.len() as int)).errors,
            section(c, sign).errors,
        ),
{
    reveal(paths);
    reveal(section);
    lemma_path(c);
    lemma_whitespace(path(c).next);
    let p = path(c).errors;
    let w = whitespace(path(c).next);
    let all = paths_from(c).errors;
    lemma_kept(p, all, 0);
    lemma_kept(w.errors, all, p.len() as int);
    if path(c).value.pieces.len() > 0 {
        lemma_kept(paths_from(w.next).errors, all, (p.len() + w.errors.len()) as int);
    }
    let before = whitespace(c);
    lemma_kept(before.errors, paths(c).errors, 0);
    lemma_kept(paths_from(before.next).errors, paths(c).errors, before.errors.len() as int);
    if c.sees_text(sign) {
        lemma_kept(paths(c.skip(sign.len() as int)).errors, section(c, sign).errors, 0);
    }
}

/// The errors of comments are kept.
pub proof fn law_errors_of_comments_are_kept(c: Cursor)
    requires
        c.wf(),
    ensures
        at_comment(c) ==> kept(comment(c).errors, comments(c).errors),
        at_comment(c) ==> kept(comments(comment(c).next).errors, comments(c).errors),
        kept(comments(blank_lines(c).1).errors, filler(c).errors),
{
    reveal(filler);
    if at_comment(c) {
        lemma_comment(c);
        let k = comment(c).errors;
        lemma_kept(k, comments(c).errors, 0);
        lemma_kept(comments(comment(c).next).errors, comments(c).errors, k.len() as int);
    }
    lemma_kept(comments(blank_lines(c).1).errors, filler(c).errors, 0);
}

/// The errors of a binding, and of what stands before it, are kept.
pub proof fn law_errors_of_bindings_are_kept(
    c: Cursor,
    kind: BlockKind,
    n: int,
    context: SpanView,
)
    requires
        c.wf(),
        n >= 0,
    ensures
        ({
            let f = filler(c);
            let w = whitespace(f.next);
            let all = block(c, kind, n, context).errors;
            let b = binding(w.next, kind, context).0;
            &&& kept(f.errors, all)
            &&& kept(w.errors, all)
            &&& w.value.len() > n ==> kept(b.errors, all) && kept(
                block(b.next, kind, n, context).errors,
                all,
            )
        }),
{
    let f = filler(c);
    let w = whitespace(f.next);
    let all = block(c, kind, n, context).errors;
    lemma_filler(c);
    lemma_whitespace(f.next);
    lemma_kept(f.errors, all, 0);
    lemma_kept(w.errors, all, f.errors.len() as int);
    if w.value.len() > n {
        let b = binding(w.next, kind, context).0;
        lemma_binding(w.next, kind, context);
        assert(c.advances(b.next) && !c.at_end());
        lemma_kept(b.errors, all, (f.errors.len() + w.errors.len()) as int);
        lemma_kept(
            block(b.next, kind, n, context).errors,
            all,
            (f.errors.len() + w.errors.len() + b.errors.len()) as int,
        );
    }
}

/// The errors of the line of a statement, and of its bindings, are kept.
pub proof fn law_errors_of_statements_are_kept(c: Cursor, n: int, span: SpanView)
    requires
        c.wf(),
    ensures
        ({
            let h = header(c, "expected a rule name"@, " <rule_name>"@);
            let s = rule_stmt(c, n, span).errors;
            &&& kept(h.errors, s)
            &&& kept(block(h.next, BlockKind::Rule, n, span.join(h.value.span)).errors, s)
        }),
        ({
            let h = header(c, "expected a pool name"@, "<pool_name>"@);
            let s = pool_stmt(c, n, span).errors;
            &&& kept(h.errors, s)
            &&& kept(block(h.next, BlockKind::Pool, n, span.join(h.value.span)).errors, s)
        }),
        ({
            let o = build_outputs(c);
            let i = build_inputs(o.next);
            let s = build_stmt(c, n, span).errors;
            &&& kept(o.errors, s)
            &&& kept(i.errors, s)
            &&& kept(block(i.next, BlockKind::Build, n, span).errors, s)
        }),
        ({
            let s = default_stmt(c, span).errors;
            &&& kept(paths(c).errors, s)
            &&& kept(line_end(paths(c).next, true, true).errors, s)
        }),
{
    reveal(rule_stmt);
    reveal(pool_stmt);
    reveal(build_stmt);
    reveal(default_stmt);
    let h = header(c, "expected a rule name"@, " <rule_name>"@);
    let b = block(h.next, BlockKind::Rule, n, span.join(h.value.span));
    lemma_kept(h.errors, rule_stmt(c, n, span).errors, 0);
    lemma_kept(b.errors, rule_stmt(c, n, span).errors, h.errors.len() as int);
    let h = header(c, "expected a pool name"@, "<pool_name>"@);
    let b = block(h.next, BlockKind::Pool, n, span.join(h.value.span));
    lemma_kept(h.errors, pool_stmt(c, n, span).errors, 0);
    lemma_kept(b.errors, pool_stmt(c, n, span).errors, h.errors.len() as int);
    let o = build_outputs(c);
    let i = build_inputs(o.next);
    let b = block(i.next, BlockKind::Build, n, span);
    let s = build_stmt(c, n, span).errors;
    lemma_kept(o.errors, s, 0);
    lemma_kept(i.errors, s, o.errors.len() as int);
    lemma_kept(b.errors, s, (o.errors.len() + i.errors.len()) as int);
    let p = paths(c);
    lemma_kept(p.errors, default_stmt(c, span).errors, 0);
    lemma_kept(
        line_end(p.next, true, true).errors,
        default_stmt(c, span).errors,
        p.errors.len() as int,
    );
}

/// The errors of the parts of a `build` line are kept.
pub proof fn law_errors_of_build_lines_are_kept(c: Cursor)
    requires
        c.wf(),
    ensures
        ({
            let outs = paths(c);
            let more = section(outs.next, "|"@);
            let s = build_outputs(c).errors;
            &&& kept(outs.errors, s)
            &&& kept(more.errors, s)
            &&& more.next.sees(':') ==> kept(whitespace(more.next.skip(1)).errors, s)
        }),
        ({
            let deps = paths(c);
            let implicit = section(deps.next, "|"@);
            let order = section(implicit.next, "||"@);
            let valid = section(order.next, "|@"@);
            let s = build_inputs(c).errors;
            &&& kept(deps.errors, s)
            &&& kept(implicit.errors, s)
            &&& kept(order.errors, s)
            &&& kept(valid.errors, s)
            &&& kept(line_end(valid.next, true, false).errors, s)
        }),
{
    reveal(build_outputs);
    reveal(build_inputs);
    let outs = paths(c);
    let more = section(outs.next, "|"@);
    let s = build_outputs(c).errors;
    lemma_kept(outs.errors, s, 0);
    lemma_kept(more.errors, s, outs.errors.len() as int);
    if more.next.sees(':') {
        let w = whitespace(more.next.skip(1)).errors;
        let none = outs.value.len() == 0 && more.value.len() == 0;
        lemma_kept(
            w,
            s,
            outs.errors.len() + more.errors.len() + (if none {
                1int
            } else {
                0
            }),
        );
    }
    let implicit = section(outs.next, "|"@);
    let order = section(implicit.next, "||"@);
    let valid = section(order.next, "|@"@);
    let t = build_inputs(c).errors;
    let k1 = outs.errors.len() as int;
    let k2 = k1 + implicit.errors.len();
    let k3 = k2 + order.errors.len();
    let k4 = k3 + valid.errors.len();
    lemma_kept(outs.errors, t, 0);
    lemma_kept(implicit.errors, t, k1);
    lemma_kept(order.errors, t, k2);
    lemma_kept(valid.errors, t, k3);
    lemma_kept(line_end(valid.next, true, false).errors, t, k4);
}

/// What is wrong behind a statement of one line is kept with what is wrong in it.
pub proof fn law_errors_behind_lines_are_kept<T>(p: Parsed<T>)
    ensures
        kept(p.errors, with_filler(p).errors),
        kept(filler(p.next).errors, with_filler(p).errors),
        kept(whitespace(filler(p.next).next).errors, with_filler(p).errors),
{
    let f = filler(p.next);
    let s = with_filler(p).errors;
    lemma_kept(p.errors, s, 0);
    lemma_kept(f.errors, s, p.errors.len() as int);
    lemma_kept(whitespace(f.next).errors, s, (p.errors.len() + f.errors.len()) as int);
}

/// The errors of the line of a `for`, and of the statements in its body, are kept.
pub proof fn law_errors_of_bodies_are_kept(
    c: Cursor,
    n: int,
    span: SpanView,
    before: FillerView,
    indent: SpanView,
)
    requires
        c.wf(),
        n >= 0,
        indent.forward(),
    ensures
        ({
            let h = with_filler(for_header(c));
            let s = for_stmt(c, n, span).errors;
            &&& kept(h.errors, s)
            &&& kept(for_body(h.next, n, h.filler, h.indent).errors, s)
        }),
        ({
            let i = item(c, indent.len());
            let s = for_body(c, n, before, indent).errors;
            &&& indent.len() > n ==> kept(i.errors, s)
            &&& indent.len() > n && c.advances(i.next) ==> kept(
                for_body(i.next, n, i.filler, i.indent).errors,
                s,
            )
        }),
{
    let h = with_filler(for_header(c));
    let b = for_body(h.next, n, h.filler, h.indent);
    let s = for_stmt(c, n, span).errors;
    lemma_kept(h.errors, s, 0);
    lemma_kept(b.errors, s, h.errors.len() as int);
    let i = item(c, indent.len());
    let t = for_body(c, n, before, indent).errors;
    if indent.len() > n {
        lemma_item(c, indent.len());
        lemma_kept(i.errors, t, 0);
        if c.advances(i.next) {
            lemma_kept(
                for_body(i.next, n, i.filler, i.indent).errors,
                t,
                i.errors.len() as int,
            );
        }
    }
}

/// The errors of each statement of a file, and of what stands before the first, are kept.
pub proof fn law_errors_of_files_are_kept(c: Cursor, indent: SpanView)
    requires
        c.wf(),
        indent.forward(),
    ensures
        ({
            let f = filler(c);
            let w = whitespace(f.next);
            let s = file(c).errors;
            &&& kept(f.errors, s)
            &&& kept(w.errors, s)
            &&& kept(items(w.next, w.value).errors, s)
        }),
        ({
            let i = item(c, indent.len());
            let s = items(c, indent).errors;
            &&& !c.at_end() ==> kept(i.errors, s)
            &&& !c.at_end() && c.advances(i.next) ==> kept(items(i.next, i.indent).errors, s)
        }),
{
    let f = filler(c);
    let w = whitespace(f.next);
    let s = file(c).errors;
    lemma_kept(f.errors, s, 0);
    lemma_kept(w.errors, s, f.errors.len() as int);
    lemma_kept(items(w.next, w.value).errors, s, (f.errors.len() + w.errors.len()) as int);
    if !c.at_end() {
        let i = item(c, indent.len());
        let t = items(c, indent).errors;
        let k = if indent.start < indent.end {
            1int
        } else {
            0
        };
        lemma_kept(i.errors, t, k);
        if c.advances(i.next) {
            lemma_kept(items(i.next, i.indent).errors, t, k + i.errors.len());
        }
    }
}

} // verus!
