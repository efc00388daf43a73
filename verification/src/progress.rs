//! Reading moves a cursor forwards.

use vstd::prelude::*;

use crate::ast::VarnameView;
use crate::code::{Cursor, SpanView};
use crate::grammar::{
    blanks, dollar, eval_from, eval_step, eval_string, func_rules, in_line, is_space, lemma_blanks,
    lemma_literal, lemma_scan, lemma_skip_white, line_rules, literal, name_chars, path_rules,
    quoted_value, scan, skip_white, varname, whitespace, EvalRules, Parsed, QuoteState,
};
use crate::stmt::FillerView;
use crate::syntax::{
    at_comment, binding, blank_lines, block, build_inputs, build_outputs, build_stmt, comment,
    comments, default_stmt, file, filler, for_body, for_header, for_stmt, header, item, items,
    let_stmt, line_end, line_value, path, paths, paths_from, pool_stmt, rule_stmt, section,
    simple_item, with_filler, BlockKind,
};
use crate::text::lemma_offset_grows;

verus! {

pub proof fn lemma_varname(c: Cursor, simple: bool)
    requires
        c.wf(),
    ensures
        c.reaches(varname(c, simple).1),
{
    lemma_scan(c, name_chars(simple));
}

/// A name is missing only where no character of a name stands.
pub proof fn lemma_invalid_name(c: Cursor, simple: bool)
    requires
        c.wf(),
    ensures
        varname(c, simple).0.valid() <==> c.at < varname(c, simple).1.at,
{
    let end = scan(c, name_chars(simple));
    lemma_scan(c, name_chars(simple));
    reveal_strlit("<invalid-name>");
    if c.at < end.at {
        assert(name_chars(simple)(c.text[c.at]));
        assert(c.text_to(end)[0] == c.text[c.at]);
    }
}

pub proof fn lemma_quoted_value(c: Cursor)
    requires
        c.wf(),
    ensures
        c.reaches(quoted_value(c).0.next),
    decreases c.left(), 4nat,
{
    if c.sees('(') {
        lemma_eval_string(c.skip(1), func_rules());
    } else {
        lemma_varname(c, false);
    }
}

pub proof fn lemma_dollar(c: Cursor, q: QuoteState, quotes: bool)
    requires
        c.wf(),
        c.sees('$'),
    ensures
        c.reaches(dollar(c, q, quotes).next),
        c.at < dollar(c, q, quotes).next.at,
    decreases c.left(), 1nat,
{
    let e = c.skip(1);
    if e.newline() > 0 {
        lemma_scan(e.skip(e.newline()), is_space());
    } else if e.sees('"') || e.sees('\'') {
        lemma_quoted_value(c.skip(2));
    } else if e.sees('{') {
        lemma_varname(e.skip(1), false);
    } else if e.sees('(') {
        lemma_eval_string(e.skip(1), func_rules());
    } else {
        lemma_varname(e, true);
    }
}

pub proof fn lemma_eval_step(c: Cursor, q: QuoteState, rules: EvalRules)
    requires
        c.wf(),
    ensures
        c.reaches(eval_step(c, q, rules).next),
        eval_step(c, q, rules).more is Some ==> c.at < eval_step(c, q, rules).next.at,
        eval_step(c, q, rules).pieces.len() > 0 ==> c.at < eval_step(c, q, rules).next.at,
        rules == line_rules() && !c.at_end() ==> c.at < eval_step(c, q, rules).next.at,
    decreases c.left(), 2nat,
{
    let (d, r) = literal(c, q, rules);
    lemma_literal(c, q, rules);
    if d.sees('$') && !rules.stop.contains('$') {
        lemma_dollar(d, r, rules.quotes);
    }
}

pub proof fn lemma_eval_from(c: Cursor, q: QuoteState, rules: EvalRules)
    requires
        c.wf(),
    ensures
        c.reaches(eval_from(c, q, rules).next),
        eval_from(c, q, rules).pieces.len() > 0 ==> c.at < eval_from(c, q, rules).next.at,
        rules == line_rules() && !c.at_end() ==> c.at < eval_from(c, q, rules).next.at,
    decreases c.left(), 3nat,
{
    let s = eval_step(c, q, rules);
    lemma_eval_step(c, q, rules);
    if s.more is Some {
        lemma_eval_from(s.next, s.more->0, rules);
    }
}

pub proof fn lemma_eval_string(c: Cursor, rules: EvalRules)
    requires
        c.wf(),
    ensures
        c.reaches(eval_string(c, rules).next),
        eval_string(c, rules).value.pieces.len() > 0 ==> c.at < eval_string(c, rules).next.at,
        rules == line_rules() && !c.at_end() ==> c.at < eval_string(c, rules).next.at,
    decreases c.left(), 4nat,
{
    lemma_eval_from(c, QuoteState::initial(), rules);
}

/// White space has a length just where a character was read.
pub proof fn lemma_whitespace(c: Cursor)
    requires
        c.wf(),
    ensures
        c.reaches(whitespace(c).next),
        whitespace(c).value == c.to(whitespace(c).next),
        whitespace(c).value.forward(),
        whitespace(c).value.len() > 0 <==> c.at < whitespace(c).next.at,
        c.at_end() ==> whitespace(c).next == c && whitespace(c).errors.len() == 0,
{
    reveal(whitespace);
    lemma_skip_white(c);
    lemma_offset_grows(c.text, c.at, skip_white(c).0.at);
}

pub proof fn lemma_path(c: Cursor)
    requires
        c.wf(),
    ensures
        c.reaches(path(c).next),
        path(c).value.pieces.len() > 0 ==> c.at < path(c).next.at,
{
    reveal(path);
    lemma_eval_string(c, path_rules());
}

pub proof fn lemma_line_value(c: Cursor)
    requires
        c.wf(),
    ensures
        c.reaches(line_value(c).next),
        !c.at_end() ==> c.at < line_value(c).next.at,
{
    reveal(line_value);
    lemma_eval_string(c, line_rules());
}

pub proof fn lemma_paths_from(c: Cursor)
    requires
        c.wf(),
    ensures
        c.reaches(paths_from(c).next),
    decreases c.left(),
{
    let p = path(c);
    let w = whitespace(p.next);
    lemma_path(c);
    lemma_whitespace(p.next);
    if p.value.pieces.len() > 0 {
        lemma_paths_from(w.next);
    }
}

pub proof fn lemma_paths(c: Cursor)
    requires
        c.wf(),
    ensures
        c.reaches(paths(c).next),
{
    reveal(paths);
    lemma_whitespace(c);
    lemma_paths_from(whitespace(c).next);
}

pub proof fn lemma_section(c: Cursor, sign: Seq<char>)
    requires
        c.wf(),
    ensures
        c.reaches(section(c, sign).next),
{
    reveal(section);
    if c.sees_text(sign) {
        lemma_paths(c.skip(sign.len() as int));
    }
}

/// There are no more blank lines than characters.
pub proof fn lemma_blank_lines(c: Cursor)
    requires
        c.wf(),
    ensures
        c.reaches(blank_lines(c).1),
        blank_lines(c).0 <= blank_lines(c).1.at - c.at,
    decreases c.left(),
{
    let d = scan(c, is_space());
    lemma_scan(c, is_space());
    if d.newline() > 0 {
        lemma_blank_lines(d.skip(d.newline()));
    }
}

/// A comment ends at a line feed or at the end of the text.
pub proof fn lemma_comment(c: Cursor)
    requires
        c.wf(),
        at_comment(c),
    ensures
        c.reaches(comment(c).next),
        c.at < comment(c).next.at,
        comment(c).value.post_newlines <= comment(c).next.at - c.at,
{
    let d = scan(c, is_space());
    lemma_scan(c, is_space());
    let e = scan(d.skip(1), in_line());
    lemma_scan(d.skip(1), in_line());
    lemma_blank_lines(e.skip(e.newline()));
}

pub proof fn lemma_comments(c: Cursor)
    requires
        c.wf(),
    ensures
        c.reaches(comments(c).next),
    decreases c.left(),
{
    if at_comment(c) {
        lemma_comment(c);
        lemma_comments(comment(c).next);
    }
}

pub proof fn lemma_filler(c: Cursor)
    requires
        c.wf(),
    ensures
        c.reaches(filler(c).next),
        filler(c).value.span == c.to(filler(c).next),
        c.at_end() ==> filler(c).next == c && filler(c).errors.len() == 0,
{
    reveal(filler);
    lemma_blank_lines(c);
    lemma_comments(blank_lines(c).1);
}

pub proof fn lemma_line_end(c: Cursor, colon: bool, pipe: bool)
    requires
        c.wf(),
    ensures
        c.reaches(line_end(c, colon, pipe).next),
{
    reveal(line_end);
    lemma_scan(c, in_line());
}

/// A `let` statement reaches the end of its line. Only at the end of the text is there
/// none.
pub proof fn lemma_let_stmt(c: Cursor, var: VarnameView)
    requires
        c.wf(),
    ensures
        c.reaches(let_stmt(c, var).next),
        !c.at_end() ==> c.at < let_stmt(c, var).next.at,
{
    reveal(let_stmt);
    lemma_whitespace(c);
    let w = whitespace(c).next;
    let d = if var.valid() {
        if w.sees('=') {
            w.skip(1)
        } else {
            w
        }
    } else {
        c
    };
    lemma_blanks(d);
    lemma_line_value(blanks(d));
}

pub proof fn lemma_header(c: Cursor, title: Seq<char>, expected: Seq<char>)
    requires
        c.wf(),
    ensures
        c.reaches(header(c, title, expected).next),
{
    reveal(header);
    let w = whitespace(c).next;
    lemma_whitespace(c);
    let d = varname(w, false).1;
    lemma_varname(w, false);
    lemma_whitespace(d);
    lemma_line_end(whitespace(d).next, false, false);
}

pub proof fn lemma_binding(c: Cursor, kind: BlockKind, while_parsing: SpanView)
    requires
        c.wf(),
    ensures
        c.reaches(binding(c, kind, while_parsing).0.next),
{
    reveal(binding);
    if kind == BlockKind::Rule && (c.sees('@') || c.sees('!')) {
        lemma_line_value(c.skip(1));
    } else {
        let (var, d) = varname(c, false);
        lemma_varname(c, false);
        lemma_let_stmt(d, var);
    }
}

pub proof fn lemma_block(
    c: Cursor,
    kind: BlockKind,
    base: int,
    while_parsing: SpanView,
)
    requires
        c.wf(),
        base >= 0,
    ensures
        c.reaches(block(c, kind, base, while_parsing).next),
        block(c, kind, base, while_parsing).indent.forward(),
    decreases c.left(),
{
    let f = filler(c);
    let w = whitespace(f.next);
    lemma_filler(c);
    lemma_whitespace(f.next);
    if w.value.len() > base {
        lemma_binding(w.next, kind, while_parsing);
        lemma_block(binding(w.next, kind, while_parsing).0.next, kind, base, while_parsing);
    }
}

pub proof fn lemma_with_filler<T>(p: Parsed<T>)
    requires
        p.next.wf(),
    ensures
        p.next.reaches(with_filler(p).next),
        with_filler(p).indent.forward(),
        p.next.at_end() ==> with_filler(p).indent.len() == 0,
{
    lemma_filler(p.next);
    lemma_whitespace(filler(p.next).next);
}

pub proof fn lemma_for_header(c: Cursor)
    requires
        c.wf(),
    ensures
        c.reaches(for_header(c).next),
{
    reveal(for_header);
    let w = whitespace(c).next;
    lemma_whitespace(c);
    let d = varname(w, false).1;
    lemma_varname(w, false);
    let w2 = whitespace(d).next;
    lemma_whitespace(d);
    let d2 = if w2.sees_text("in"@) {
        w2.skip("in"@.len() as int)
    } else {
        w2
    };
    lemma_whitespace(d2);
    lemma_line_value(whitespace(d2).next);
}

/// The word `for` has a length.
pub proof fn lemma_for_word(c: Cursor)
    requires
        c.wf(),
        varname(c, false).0.name == "for"@,
    ensures
        c.reaches(varname(c, false).1),
        c.at < varname(c, false).1.at,
{
    lemma_varname(c, false);
    lemma_invalid_name(c, false);
    reveal_strlit("for");
    reveal_strlit("<invalid-name>");
    assert("for"@.len() != "<invalid-name>"@.len());
}

pub proof fn lemma_rule_stmt(c: Cursor, base: int, span: SpanView)
    requires
        c.wf(),
        base >= 0,
    ensures
        c.reaches(rule_stmt(c, base, span).next),
        rule_stmt(c, base, span).indent.forward(),
{
    reveal(rule_stmt);
    let h = header(c, "expected a rule name"@, " <rule_name>"@);
    lemma_header(c, "expected a rule name"@, " <rule_name>"@);
    lemma_block(h.next, BlockKind::Rule, base, span.join(h.value.span));
}

pub proof fn lemma_pool_stmt(c: Cursor, base: int, span: SpanView)
    requires
        c.wf(),
        base >= 0,
    ensures
        c.reaches(pool_stmt(c, base, span).next),
        pool_stmt(c, base, span).indent.forward(),
{
    reveal(pool_stmt);
    let h = header(c, "expected a pool name"@, "<pool_name>"@);
    lemma_header(c, "expected a pool name"@, "<pool_name>"@);
    lemma_block(h.next, BlockKind::Pool, base, span.join(h.value.span));
}

pub proof fn lemma_build_outputs(c: Cursor)
    requires
        c.wf(),
    ensures
        c.reaches(build_outputs(c).next),
{
    reveal(build_outputs);
    lemma_paths(c);
    lemma_section(paths(c).next, "|"@);
    let d = section(paths(c).next, "|"@).next;
    let e = if d.sees(':') {
        d.skip(1)
    } else {
        d
    };
    lemma_whitespace(e);
    lemma_varname(whitespace(e).next, false);
}

pub proof fn lemma_build_inputs(c: Cursor)
    requires
        c.wf(),
    ensures
        c.reaches(build_inputs(c).next),
{
    reveal(build_inputs);
    let c1 = paths(c).next;
    lemma_paths(c);
    let c2 = section(c1, "|"@).next;
    lemma_section(c1, "|"@);
    let c3 = section(c2, "||"@).next;
    lemma_section(c2, "||"@);
    lemma_section(c3, "|@"@);
    lemma_line_end(section(c3, "|@"@).next, true, false);
}

pub proof fn lemma_build_stmt(c: Cursor, base: int, span: SpanView)
    requires
        c.wf(),
        base >= 0,
    ensures
        c.reaches(build_stmt(c, base, span).next),
        build_stmt(c, base, span).indent.forward(),
{
    reveal(build_stmt);
    let d = build_outputs(c).next;
    lemma_build_outputs(c);
    lemma_build_inputs(d);
    lemma_block(build_inputs(d).next, BlockKind::Build, base, span);
}

pub proof fn lemma_default_stmt(c: Cursor, span: SpanView)
    requires
        c.wf(),
    ensures
        c.reaches(default_stmt(c, span).next),
{
    reveal(default_stmt);
    lemma_paths(c);
    lemma_line_end(paths(c).next, true, true);
}

/// A statement whose name is missing takes the rest of its line.
pub proof fn lemma_simple_item(c: Cursor, indent: int, name: VarnameView)
    requires
        c.wf(),
        indent >= 0,
    ensures
        c.reaches(simple_item(c, indent, name).next),
        simple_item(c, indent, name).indent.forward(),
        !name.valid() && !c.at_end() ==> c.at < simple_item(c, indent, name).next.at,
        !name.valid() && c.at_end() ==> simple_item(c, indent, name).indent.len() == 0,
{
    reveal(simple_item);
    reveal_strlit("<invalid-name>");
    reveal_strlit("rule");
    reveal_strlit("build");
    reveal_strlit("default");
    reveal_strlit("pool");
    assert("<invalid-name>"@.len() == 14);
    assert("rule"@.len() == 4);
    assert("build"@.len() == 5);
    assert("default"@.len() == 7);
    assert("pool"@.len() == 4);
    if name.name == "rule"@ {
        lemma_rule_stmt(c, indent, name.span);
    } else if name.name == "build"@ {
        lemma_build_stmt(c, indent, name.span);
    } else if name.name == "default"@ {
        lemma_default_stmt(c, name.span);
        lemma_with_filler(default_stmt(c, name.span));
    } else if name.name == "pool"@ {
        lemma_pool_stmt(c, indent, name.span);
    } else {
        lemma_let_stmt(c, name);
        lemma_with_filler(let_stmt(c, name));
    }
}

pub proof fn lemma_for_stmt(c: Cursor, base: int, span: SpanView)
    requires
        c.wf(),
        base >= 0,
    ensures
        c.reaches(for_stmt(c, base, span).next),
        for_stmt(c, base, span).indent.forward(),
    decreases c.left(), 2nat,
{
    let h = with_filler(for_header(c));
    lemma_for_header(c);
    lemma_with_filler(for_header(c));
    lemma_for_body(h.next, base, h.filler, h.indent);
}

pub proof fn lemma_for_body(c: Cursor, base: int, filler: FillerView, indent: SpanView)
    requires
        c.wf(),
        base >= 0,
        indent.forward(),
    ensures
        c.reaches(for_body(c, base, filler, indent).next),
        for_body(c, base, filler, indent).indent.forward(),
        for_body(c, base, filler, indent).indent.len() <= base,
    decreases c.left(), 1nat,
{
    if indent.len() > base {
        let i = item(c, indent.len());
        lemma_item(c, indent.len());
        if c.advances(i.next) {
            lemma_for_body(i.next, base, i.filler, i.indent);
        }
    }
}

/// A statement moves on, but for one that stands at the end of the text, which nothing
/// follows.
pub proof fn lemma_item(c: Cursor, indent: int)
    requires
        c.wf(),
        indent >= 0,
    ensures
        c.reaches(item(c, indent).next),
        item(c, indent).indent.forward(),
        !c.at_end() ==> c.at < item(c, indent).next.at,
        c.at_end() ==> item(c, indent).indent.len() == 0,
    decreases c.left(), 0nat,
{
    let (name, d) = varname(c, false);
    lemma_varname(c, false);
    lemma_invalid_name(c, false);
    if name.name == "for"@ {
        lemma_for_word(c);
        lemma_for_stmt(d, indent, name.span);
    } else {
        lemma_simple_item(d, indent, name);
    }
}

/// The statements of a file reach the end of the text.
pub proof fn lemma_items(c: Cursor, indent: SpanView)
    requires
        c.wf(),
        indent.forward(),
    ensures
        c.reaches(items(c, indent).next),
        items(c, indent).next.at_end(),
    decreases c.left(),
{
    if !c.at_end() {
        let i = item(c, indent.len());
        lemma_item(c, indent.len());
        lemma_items(i.next, i.indent);
    }
}

pub proof fn lemma_file(c: Cursor)
    requires
        c.wf(),
    ensures
        c.reaches(file(c).next),
        file(c).next.at_end(),
{
    lemma_filler(c);
    lemma_whitespace(filler(c).next);
    let w = whitespace(filler(c).next);
    lemma_items(w.next, w.value);
}

} // verus!
