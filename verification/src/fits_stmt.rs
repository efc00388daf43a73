//! Everything that the parser points at lies in the text that it reads: statements.

use vstd::prelude::*;

use crate::ast::{EvalStringView, VarnameView};
use crate::code::{Cursor, SpanView};
use crate::error::{all_fit, covers, expected_error, missing_depth_error, plain_error};
use crate::fits::{
    lemma_both_fit, lemma_covers, lemma_eval_string_fits, lemma_expected_fits, lemma_fits_if,
    lemma_forward, lemma_join, lemma_missing_depth_fits, lemma_no_errors, lemma_one_fits,
    lemma_plain_fits, lemma_unexpected_variable_fits, lemma_varname_fits, lemma_whitespace_fits,
    spells,
};
use crate::grammar::{
    blanks, error_if, in_line, is_space, lemma_blanks, lemma_scan, line_rules, name_char,
    path_rules, scan, varname, whitespace, Parsed,
};
use crate::progress::{
    lemma_binding, lemma_blank_lines, lemma_block, lemma_build_inputs, lemma_build_outputs,
    lemma_comment, lemma_comments, lemma_default_stmt, lemma_filler, lemma_for_header,
    lemma_for_word, lemma_header, lemma_item, lemma_let_stmt, lemma_path, lemma_paths,
    lemma_section, lemma_varname, lemma_whitespace, lemma_with_filler,
};
use crate::stmt::{
    bindings_printable, body_printable, BindingView, BindingsView, BuildView, CommentView,
    DefaultView, FillerView, ForBodyItemView, ForView, ItemView, ItemsView, LetView, MexFileView,
    PoolView, RuleView,
};
use crate::syntax::{
    at_comment, binding, blank_lines, block, build_inputs, build_outputs, build_stmt, comment,
    comments, default_stmt, file, filler, for_body, for_header, for_stmt, header, item, items,
    let_stmt, line_end, line_end_error, line_value, missing_newline_error, out_of_place,
    out_of_place_error, path, paths, paths_from, pool_stmt, rule_stmt, section, simple_item,
    with_filler, BlockKind, Stmt,
};

verus! {

// -------------------------------------------------------------------- the tree

impl CommentView {
    /// The comment stands in `text`, at a range that runs backwards.
    pub open spec fn fits(self, text: Seq<char>) -> bool {
        spells(
            text,
            SpanView { start: self.text_span.end, end: self.text_span.start },
            self.text,
        )
    }
}

impl FillerView {
    pub open spec fn fits(self, text: Seq<char>) -> bool {
        covers(text, self.span) && forall|i: int|
            0 <= i < self.comments.len() ==> (#[trigger] self.comments[i]).fits(text)
    }
}

impl LetView {
    pub open spec fn fits(self, text: Seq<char>) -> bool {
        self.var.fits(text) && self.value.fits(text)
    }
}

impl BindingView {
    pub open spec fn fits(self, text: Seq<char>) -> bool {
        covers(text, self.indent_span) && self.let_stmt.fits(text)
    }
}

pub open spec fn bindings_fit(bindings: BindingsView, text: Seq<char>) -> bool {
    forall|i: int|
        0 <= i < bindings.len() ==> (#[trigger] bindings[i]).0.fits(text) && bindings[i].1.fits(
            text,
        )
}

pub open spec fn paths_fit(paths: Seq<EvalStringView>, text: Seq<char>) -> bool {
    forall|i: int| 0 <= i < paths.len() ==> (#[trigger] paths[i]).fits(text)
}

impl RuleView {
    pub open spec fn fits(self, text: Seq<char>) -> bool {
        covers(text, self.rule_span) && self.name.fits(text) && bindings_fit(self.bindings, text)
    }
}

impl BuildView {
    pub open spec fn fits(self, text: Seq<char>) -> bool {
        &&& covers(text, self.build_span)
        &&& paths_fit(self.outs, text)
        &&& paths_fit(self.implicit_outs, text)
        &&& self.rule.fits(text)
        &&& paths_fit(self.deps, text)
        &&& paths_fit(self.implicit_deps, text)
        &&& paths_fit(self.order_only_deps, text)
        &&& paths_fit(self.validations, text)
        &&& bindings_fit(self.bindings, text)
    }
}

impl DefaultView {
    pub open spec fn fits(self, text: Seq<char>) -> bool {
        covers(text, self.default_span) && paths_fit(self.outs, text)
    }
}

impl PoolView {
    pub open spec fn fits(self, text: Seq<char>) -> bool {
        covers(text, self.pool_span) && self.name.fits(text) && bindings_fit(self.bindings, text)
    }
}

impl ForView {
    pub open spec fn fits(self, text: Seq<char>) -> bool
        decreases self,
    {
        &&& covers(text, self.for_span)
        &&& self.var.fits(text)
        &&& self.values.fits(text)
        &&& forall|i: int| 0 <= i < self.items.len() ==> (#[trigger] self.items[i]).fits(text)
    }
}

impl ForBodyItemView {
    pub open spec fn fits(self, text: Seq<char>) -> bool
        decreases self,
    {
        self.filler.fits(text) && covers(text, self.indent_span) && self.item.fits(text)
    }
}

impl ItemView {
    /// The statement, and all that it holds, stands in `text`.
    pub open spec fn fits(self, text: Seq<char>) -> bool
        decreases self,
    {
        match self {
            ItemView::Let(stmt) => stmt.fits(text),
            ItemView::Rule(stmt) => stmt.fits(text),
            ItemView::Build(stmt) => stmt.fits(text),
            ItemView::Default(stmt) => stmt.fits(text),
            ItemView::Pool(stmt) => stmt.fits(text),
            ItemView::For(stmt) => stmt.fits(text),
        }
    }
}

pub open spec fn items_fit(items: ItemsView, text: Seq<char>) -> bool {
    forall|i: int|
        0 <= i < items.len() ==> (#[trigger] items[i]).0.fits(text) && items[i].1.fits(text)
}

impl MexFileView {
    /// All that the file holds stands in `text`.
    pub open spec fn fits(self, text: Seq<char>) -> bool {
        self.opening_filler.fits(text) && items_fit(self.items, text)
    }
}

// ------------------------------------------------------------------- the parts

proof fn lemma_path_fits(c: Cursor)
    requires
        c.wf(),
    ensures
        path(c).value.fits(c.text),
        all_fit(path(c).errors, c.text),
{
    reveal(path);
    lemma_eval_string_fits(c, path_rules());
}

proof fn lemma_line_value_fits(c: Cursor)
    requires
        c.wf(),
    ensures
        line_value(c).value.fits(c.text),
        all_fit(line_value(c).errors, c.text),
{
    reveal(line_value);
    lemma_eval_string_fits(c, line_rules());
}

proof fn lemma_paths_from_fit(c: Cursor)
    requires
        c.wf(),
    ensures
        paths_fit(paths_from(c).value, c.text),
        all_fit(paths_from(c).errors, c.text),
    decreases c.left(),
{
    let p = path(c);
    let w = whitespace(p.next);
    lemma_path(c);
    lemma_path_fits(c);
    lemma_whitespace(p.next);
    lemma_whitespace_fits(p.next);
    lemma_both_fit(p.errors, w.errors, c.text);
    if p.value.pieces.len() > 0 {
        lemma_paths_from_fit(w.next);
        lemma_both_fit(p.errors + w.errors, paths_from(w.next).errors, c.text);
    }
}

pub proof fn lemma_paths_fit(c: Cursor)
    requires
        c.wf(),
    ensures
        paths_fit(paths(c).value, c.text),
        all_fit(paths(c).errors, c.text),
{
    reveal(paths);
    let w = whitespace(c);
    lemma_whitespace(c);
    lemma_whitespace_fits(c);
    lemma_paths_from_fit(w.next);
    lemma_both_fit(w.errors, paths_from(w.next).errors, c.text);
}

proof fn lemma_section_fits(c: Cursor, sign: Seq<char>)
    requires
        c.wf(),
    ensures
        paths_fit(section(c, sign).value, c.text),
        all_fit(section(c, sign).errors, c.text),
{
    reveal(section);
    lemma_no_errors(c.text);
    if c.sees_text(sign) {
        lemma_paths_fit(c.skip(sign.len() as int));
    }
}

proof fn lemma_missing_newline_fits(c: Cursor)
    requires
        c.wf(),
    ensures
        missing_newline_error(c).fits(c.text),
{
    lemma_covers(c, c);
    lemma_expected_fits("expected newline"@, "\n"@, c.here(), "here"@, c.text);
}

proof fn lemma_comment_fits(c: Cursor)
    requires
        c.wf(),
        at_comment(c),
    ensures
        comment(c).value.fits(c.text),
        all_fit(comment(c).errors, c.text),
{
    let d = scan(c, is_space());
    lemma_scan(c, is_space());
    let e = scan(d.skip(1), in_line());
    lemma_scan(d.skip(1), in_line());
    lemma_covers(c, e);
    lemma_missing_newline_fits(e);
    lemma_fits_if(e.newline() == 0, missing_newline_error(e), c.text);
}

proof fn lemma_comments_fit(c: Cursor)
    requires
        c.wf(),
    ensures
        forall|i: int|
            0 <= i < comments(c).value.len() ==> (#[trigger] comments(c).value[i]).fits(c.text),
        all_fit(comments(c).errors, c.text),
    decreases c.left(),
{
    lemma_no_errors(c.text);
    if at_comment(c) {
        let k = comment(c);
        lemma_comment(c);
        lemma_comment_fits(c);
        lemma_comments_fit(k.next);
        lemma_both_fit(k.errors, comments(k.next).errors, c.text);
    }
}

pub proof fn lemma_filler_fits(c: Cursor)
    requires
        c.wf(),
    ensures
        filler(c).value.fits(c.text),
        all_fit(filler(c).errors, c.text),
{
    reveal(filler);
    let d = blank_lines(c).1;
    lemma_blank_lines(c);
    lemma_comments(d);
    lemma_comments_fit(d);
    lemma_covers(c, comments(d).next);
}

proof fn lemma_line_end_fits(c: Cursor, colon: bool, pipe: bool)
    requires
        c.wf(),
    ensures
        all_fit(line_end(c, colon, pipe).errors, c.text),
{
    reveal(line_end);
    lemma_no_errors(c.text);
    lemma_missing_newline_fits(c);
    if c.peek() is Some {
        lemma_covers(c, c.skip(1));
        lemma_plain_fits("unexpected colon"@, c.to(c.skip(1)), "here"@, c.text);
        lemma_plain_fits("unexpected pipe"@, c.to(c.skip(1)), "here"@, c.text);
    }
    lemma_one_fits(line_end_error(c, colon, pipe), c.text);
}

pub proof fn lemma_let_stmt_fits(c: Cursor, var: VarnameView)
    requires
        c.wf(),
        var.fits(c.text),
    ensures
        let_stmt(c, var).value.fits(c.text),
        all_fit(let_stmt(c, var).errors, c.text),
{
    reveal(let_stmt);
    let text = c.text;
    if var.valid() {
        let w = whitespace(c);
        lemma_whitespace(c);
        lemma_whitespace_fits(c);
        let signed = w.next.sees('=');
        let d = if signed {
            w.next.skip(1)
        } else {
            w.next
        };
        lemma_blanks(d);
        lemma_line_value_fits(blanks(d));
        lemma_covers(w.next, w.next);
        let e = expected_error(
            "expected assignment operator '='"@,
            " = "@,
            w.next.here(),
            "here"@,
        );
        lemma_expected_fits(
            "expected assignment operator '='"@,
            " = "@,
            w.next.here(),
            "here"@,
            text,
        );
        lemma_fits_if(!signed, e, text);
        lemma_both_fit(w.errors, error_if(!signed, e), text);
        lemma_both_fit(w.errors + error_if(!signed, e), line_value(blanks(d)).errors, text);
    } else {
        lemma_blanks(c);
        lemma_line_value_fits(blanks(c));
        lemma_covers(c, c);
        let e = expected_error(
            "expected a variable name"@,
            "<variable_name> = "@,
            c.here(),
            "here"@,
        );
        lemma_expected_fits(
            "expected a variable name"@,
            "<variable_name> = "@,
            c.here(),
            "here"@,
            text,
        );
        lemma_one_fits(e, text);
        lemma_both_fit(seq![e], line_value(blanks(c)).errors, text);
    }
}

proof fn lemma_header_fits(c: Cursor, title: Seq<char>, expected: Seq<char>)
    requires
        c.wf(),
    ensures
        header(c, title, expected).value.fits(c.text),
        all_fit(header(c, title, expected).errors, c.text),
{
    reveal(header);
    let text = c.text;
    let w = whitespace(c);
    lemma_whitespace(c);
    lemma_whitespace_fits(c);
    let (name, d) = varname(w.next, false);
    lemma_varname(w.next, false);
    lemma_varname_fits(w.next, false);
    let w2 = whitespace(d);
    lemma_whitespace(d);
    lemma_whitespace_fits(d);
    lemma_line_end_fits(w2.next, false, false);
    lemma_covers(d, d);
    let e = expected_error(title, expected, d.here(), "here"@);
    lemma_expected_fits(title, expected, d.here(), "here"@, text);
    lemma_fits_if(!name.valid(), e, text);
    let known = w.errors + error_if(!name.valid(), e);
    lemma_both_fit(w.errors, error_if(!name.valid(), e), text);
    lemma_both_fit(known, w2.errors, text);
    lemma_both_fit(known + w2.errors, line_end(w2.next, false, false).errors, text);
}

proof fn lemma_binding_fits(c: Cursor, kind: BlockKind, while_parsing: SpanView)
    requires
        c.wf(),
        covers(c.text, while_parsing),
    ensures
        binding(c, kind, while_parsing).0.value.fits(c.text),
        all_fit(binding(c, kind, while_parsing).0.errors, c.text),
{
    reveal(binding);
    if kind == BlockKind::Rule && (c.sees('@') || c.sees('!')) {
        lemma_covers(c, c.skip(1));
        lemma_line_value_fits(c.skip(1));
    } else {
        let (var, d) = varname(c, false);
        lemma_varname(c, false);
        lemma_varname_fits(c, false);
        lemma_let_stmt_fits(d, var);
        let odd = out_of_place(kind, var);
        let e = out_of_place_error(kind, var, while_parsing);
        lemma_unexpected_variable_fits(
            var.name,
            while_parsing,
            var.span,
            match kind {
                BlockKind::Pool => "pools must have only a 'depth' variable binding"@,
                _ => "rules may only bind certain variables"@,
            },
            c.text,
        );
        lemma_fits_if(odd, e, c.text);
        lemma_both_fit(let_stmt(d, var).errors, error_if(odd, e), c.text);
    }
}

proof fn lemma_block_fits(c: Cursor, kind: BlockKind, base: int, while_parsing: SpanView)
    requires
        c.wf(),
        base >= 0,
        covers(c.text, while_parsing),
    ensures
        ({
            let b = block(c, kind, base, while_parsing);
            &&& bindings_fit(b.bindings, c.text)
            &&& b.filler.fits(c.text)
            &&& covers(c.text, b.indent)
            &&& all_fit(b.errors, c.text)
        }),
    decreases c.left(),
{
    let f = filler(c);
    let w = whitespace(f.next);
    lemma_filler(c);
    lemma_filler_fits(c);
    lemma_whitespace(f.next);
    lemma_whitespace_fits(f.next);
    lemma_both_fit(f.errors, w.errors, c.text);
    if w.value.len() > base {
        let (b, kept) = binding(w.next, kind, while_parsing);
        lemma_binding(w.next, kind, while_parsing);
        lemma_binding_fits(w.next, kind, while_parsing);
        lemma_both_fit(f.errors + w.errors, b.errors, c.text);
        lemma_block_fits(b.next, kind, base, while_parsing);
        let rest = block(b.next, kind, base, while_parsing);
        lemma_both_fit(f.errors + w.errors + b.errors, rest.errors, c.text);
    }
}

/// What follows a statement stands in `text`, and so does what is wrong with it.
pub open spec fn end_fits<T>(s: Stmt<T>, text: Seq<char>) -> bool {
    s.filler.fits(text) && covers(text, s.indent) && all_fit(s.errors, text)
}

proof fn lemma_rule_fits(c: Cursor, base: int, span: SpanView)
    requires
        c.wf(),
        base >= 0,
        covers(c.text, span),
    ensures
        rule_stmt(c, base, span).value.fits(c.text),
        end_fits(rule_stmt(c, base, span), c.text),
{
    reveal(rule_stmt);
    let h = header(c, "expected a rule name"@, " <rule_name>"@);
    lemma_header(c, "expected a rule name"@, " <rule_name>"@);
    lemma_header_fits(c, "expected a rule name"@, " <rule_name>"@);
    lemma_join(c.text, span, h.value.span);
    let b = block(h.next, BlockKind::Rule, base, span.join(h.value.span));
    lemma_block_fits(h.next, BlockKind::Rule, base, span.join(h.value.span));
    lemma_both_fit(h.errors, b.errors, c.text);
}

proof fn lemma_pool_fits(c: Cursor, base: int, span: SpanView)
    requires
        c.wf(),
        base >= 0,
        covers(c.text, span),
    ensures
        pool_stmt(c, base, span).value.fits(c.text),
        end_fits(pool_stmt(c, base, span), c.text),
{
    reveal(pool_stmt);
    let h = header(c, "expected a pool name"@, "<pool_name>"@);
    lemma_header(c, "expected a pool name"@, "<pool_name>"@);
    lemma_header_fits(c, "expected a pool name"@, "<pool_name>"@);
    let outer = span.join(h.value.span);
    lemma_join(c.text, span, h.value.span);
    let b = block(h.next, BlockKind::Pool, base, outer);
    lemma_block(h.next, BlockKind::Pool, base, outer);
    lemma_block_fits(h.next, BlockKind::Pool, base, outer);
    lemma_both_fit(h.errors, b.errors, c.text);
    let insert = SpanView { start: b.filler.span.start, end: b.filler.span.start };
    lemma_forward(c.text, b.filler.span);
    lemma_covers(b.next, b.next);
    let e = missing_depth_error(outer, b.next.here(), insert);
    lemma_missing_depth_fits(outer, b.next.here(), insert, c.text);
    lemma_fits_if(b.bindings.len() == 0, e, c.text);
    lemma_both_fit(h.errors + b.errors, error_if(b.bindings.len() == 0, e), c.text);
}

proof fn lemma_build_outputs_fit(c: Cursor)
    requires
        c.wf(),
    ensures
        ({
            let p = build_outputs(c);
            &&& paths_fit(p.value.0, c.text)
            &&& paths_fit(p.value.1, c.text)
            &&& p.value.2.fits(c.text)
            &&& all_fit(p.errors, c.text)
        }),
{
    reveal(build_outputs);
    let text = c.text;
    let outs = paths(c);
    lemma_paths(c);
    lemma_paths_fit(c);
    let implicit = section(outs.next, "|"@);
    lemma_section(outs.next, "|"@);
    lemma_section_fits(outs.next, "|"@);
    let d = implicit.next;
    lemma_covers(d, d);
    let parted = d.sees(':');
    let d2 = if parted {
        d.skip(1)
    } else {
        d
    };
    let w = whitespace(d2);
    lemma_whitespace(d2);
    lemma_whitespace_fits(d2);
    let (rule, next) = varname(w.next, false);
    lemma_varname(w.next, false);
    lemma_varname_fits(w.next, false);
    lemma_covers(next, next);
    lemma_both_fit(outs.errors, implicit.errors, text);
    let known = outs.errors + implicit.errors;
    let bare = outs.value.len() == 0 && implicit.value.len() == 0;
    let e = expected_error("expected output path"@, "<output-path>"@, d.here(), "here"@);
    lemma_expected_fits("expected output path"@, "<output-path>"@, d.here(), "here"@, text);
    lemma_fits_if(bare, e, text);
    lemma_both_fit(known, error_if(bare, e), text);
    let known = known + error_if(bare, e);
    let e = expected_error("expected colon"@, ":"@, d.here(), "here"@);
    lemma_expected_fits("expected colon"@, ":"@, d.here(), "here"@, text);
    lemma_fits_if(!parted, e, text);
    lemma_both_fit(known, error_if(!parted, e), text);
    let known = known + error_if(!parted, e);
    lemma_both_fit(known, w.errors, text);
    let known = known + w.errors;
    let e = expected_error("expected a rule name"@, "<rule_name>"@, next.here(), "here"@);
    lemma_expected_fits("expected a rule name"@, "<rule_name>"@, next.here(), "here"@, text);
    lemma_fits_if(!rule.valid(), e, text);
    lemma_both_fit(known, error_if(!rule.valid(), e), text);
}

proof fn lemma_build_inputs_fit(c: Cursor)
    requires
        c.wf(),
    ensures
        ({
            let p = build_inputs(c);
            &&& paths_fit(p.value.deps, c.text)
            &&& paths_fit(p.value.implicit_deps, c.text)
            &&& paths_fit(p.value.order_only_deps, c.text)
            &&& paths_fit(p.value.validations, c.text)
            &&& all_fit(p.errors, c.text)
        }),
{
    reveal(build_inputs);
    let text = c.text;
    let p0 = paths(c);
    lemma_paths(c);
    lemma_paths_fit(c);
    let p1 = section(p0.next, "|"@);
    lemma_section(p0.next, "|"@);
    lemma_section_fits(p0.next, "|"@);
    let p2 = section(p1.next, "||"@);
    lemma_section(p1.next, "||"@);
    lemma_section_fits(p1.next, "||"@);
    let p3 = section(p2.next, "|@"@);
    lemma_section(p2.next, "|@"@);
    lemma_section_fits(p2.next, "|@"@);
    lemma_line_end_fits(p3.next, true, false);
    lemma_both_fit(p0.errors, p1.errors, text);
    lemma_both_fit(p0.errors + p1.errors, p2.errors, text);
    lemma_both_fit(p0.errors + p1.errors + p2.errors, p3.errors, text);
    lemma_both_fit(
        p0.errors + p1.errors + p2.errors + p3.errors,
        line_end(p3.next, true, false).errors,
        text,
    );
}

proof fn lemma_build_fits(c: Cursor, base: int, span: SpanView)
    requires
        c.wf(),
        base >= 0,
        covers(c.text, span),
    ensures
        build_stmt(c, base, span).value.fits(c.text),
        end_fits(build_stmt(c, base, span), c.text),
{
    reveal(build_stmt);
    let o = build_outputs(c);
    lemma_build_outputs(c);
    lemma_build_outputs_fit(c);
    let i = build_inputs(o.next);
    lemma_build_inputs(o.next);
    lemma_build_inputs_fit(o.next);
    let b = block(i.next, BlockKind::Build, base, span);
    lemma_block_fits(i.next, BlockKind::Build, base, span);
    lemma_both_fit(o.errors, i.errors, c.text);
    lemma_both_fit(o.errors + i.errors, b.errors, c.text);
}

proof fn lemma_default_fits(c: Cursor, span: SpanView)
    requires
        c.wf(),
        covers(c.text, span),
    ensures
        default_stmt(c, span).value.fits(c.text),
        all_fit(default_stmt(c, span).errors, c.text),
{
    reveal(default_stmt);
    let p = paths(c);
    lemma_paths(c);
    lemma_paths_fit(c);
    lemma_line_end_fits(p.next, true, true);
    lemma_both_fit(p.errors, line_end(p.next, true, true).errors, c.text);
}

proof fn lemma_with_filler_fits<T>(p: Parsed<T>)
    requires
        p.next.wf(),
        all_fit(p.errors, p.next.text),
    ensures
        end_fits(with_filler(p), p.next.text),
{
    let f = filler(p.next);
    let w = whitespace(f.next);
    lemma_filler(p.next);
    lemma_filler_fits(p.next);
    lemma_whitespace_fits(f.next);
    lemma_both_fit(p.errors, f.errors, p.next.text);
    lemma_both_fit(p.errors + f.errors, w.errors, p.next.text);
}

proof fn lemma_for_header_fits(c: Cursor)
    requires
        c.wf(),
    ensures
        for_header(c).value.0.fits(c.text),
        for_header(c).value.1.fits(c.text),
        all_fit(for_header(c).errors, c.text),
{
    reveal(for_header);
    let text = c.text;
    let w = whitespace(c);
    lemma_whitespace(c);
    lemma_whitespace_fits(c);
    let (var, d) = varname(w.next, false);
    lemma_varname(w.next, false);
    lemma_varname_fits(w.next, false);
    lemma_covers(d, d);
    let w2 = whitespace(d);
    lemma_whitespace(d);
    lemma_whitespace_fits(d);
    lemma_covers(w2.next, w2.next);
    let worded = w2.next.sees_text("in"@);
    let d2 = if worded {
        w2.next.skip("in"@.len() as int)
    } else {
        w2.next
    };
    let w3 = whitespace(d2);
    lemma_whitespace(d2);
    lemma_whitespace_fits(d2);
    lemma_covers(w3.next, w3.next);
    let plain = w3.next.peek() is Some && name_char(w3.next.peek()->0, false);
    let v = line_value(w3.next);
    lemma_line_value_fits(w3.next);
    let e = expected_error("expected a variable name"@, " <var_name>"@, d.here(), "here"@);
    lemma_expected_fits("expected a variable name"@, " <var_name>"@, d.here(), "here"@, text);
    lemma_fits_if(!var.valid(), e, text);
    lemma_both_fit(w.errors, error_if(!var.valid(), e), text);
    let known = w.errors + error_if(!var.valid(), e);
    lemma_both_fit(known, w2.errors, text);
    let known = known + w2.errors;
    let e = expected_error("expected 'in'"@, " in"@, w2.next.here(), "here"@);
    lemma_expected_fits("expected 'in'"@, " in"@, w2.next.here(), "here"@, text);
    lemma_fits_if(!worded, e, text);
    lemma_both_fit(known, error_if(!worded, e), text);
    let known = known + error_if(!worded, e);
    lemma_both_fit(known, w3.errors, text);
    let known = known + w3.errors;
    let e = expected_error("expected a space ' '"@, " "@, w3.next.here(), "here"@);
    lemma_expected_fits("expected a space ' '"@, " "@, w3.next.here(), "here"@, text);
    lemma_fits_if(!plain, e, text);
    lemma_both_fit(known, error_if(!plain, e), text);
    lemma_both_fit(known + error_if(!plain, e), v.errors, text);
}

proof fn lemma_simple_item_fits(c: Cursor, indent: int, name: VarnameView)
    requires
        c.wf(),
        indent >= 0,
        name.fits(c.text),
    ensures
        simple_item(c, indent, name).value.fits(c.text),
        end_fits(simple_item(c, indent, name), c.text),
{
    reveal(simple_item);
    if name.name == "rule"@ {
        lemma_rule_fits(c, indent, name.span);
    } else if name.name == "build"@ {
        lemma_build_fits(c, indent, name.span);
    } else if name.name == "default"@ {
        lemma_default_stmt(c, name.span);
        lemma_default_fits(c, name.span);
        lemma_with_filler_fits(default_stmt(c, name.span));
    } else if name.name == "pool"@ {
        lemma_pool_fits(c, indent, name.span);
    } else {
        lemma_let_stmt(c, name);
        lemma_let_stmt_fits(c, name);
        lemma_with_filler_fits(let_stmt(c, name));
    }
}

proof fn lemma_for_fits(c: Cursor, base: int, span: SpanView)
    requires
        c.wf(),
        base >= 0,
        covers(c.text, span),
    ensures
        for_stmt(c, base, span).value.fits(c.text),
        end_fits(for_stmt(c, base, span), c.text),
    decreases c.left(), 2nat,
{
    let h = with_filler(for_header(c));
    lemma_for_header(c);
    lemma_for_header_fits(c);
    lemma_with_filler(for_header(c));
    lemma_with_filler_fits(for_header(c));
    lemma_for_body_fits(h.next, base, h.filler, h.indent);
    let b = for_body(h.next, base, h.filler, h.indent);
    lemma_both_fit(h.errors, b.errors, c.text);
}

proof fn lemma_for_body_fits(c: Cursor, base: int, filler: FillerView, indent: SpanView)
    requires
        c.wf(),
        base >= 0,
        filler.fits(c.text),
        covers(c.text, indent),
    ensures
        forall|i: int|
            0 <= i < for_body(c, base, filler, indent).value.len() ==> (
            #[trigger] for_body(c, base, filler, indent).value[i]).fits(c.text),
        end_fits(for_body(c, base, filler, indent), c.text),
    decreases c.left(), 1nat,
{
    lemma_no_errors(c.text);
    if indent.len() > base {
        let i = item(c, indent.len());
        lemma_item(c, indent.len());
        lemma_item_fits(c, indent.len());
        let head = ForBodyItemView { filler, indent_span: indent, item: i.value };
        assert(head.fits(c.text));
        lemma_both_fit(i.errors, seq![], c.text);
        if c.advances(i.next) {
            lemma_for_body_fits(i.next, base, i.filler, i.indent);
            let rest = for_body(i.next, base, i.filler, i.indent);
            lemma_both_fit(i.errors, rest.errors, c.text);
        }
    }
}

proof fn lemma_item_fits(c: Cursor, indent: int)
    requires
        c.wf(),
        indent >= 0,
    ensures
        item(c, indent).value.fits(c.text),
        end_fits(item(c, indent), c.text),
    decreases c.left(), 0nat,
{
    let (name, d) = varname(c, false);
    lemma_varname(c, false);
    lemma_varname_fits(c, false);
    if name.name == "for"@ {
        lemma_for_word(c);
        lemma_for_fits(d, indent, name.span);
    } else {
        lemma_simple_item_fits(d, indent, name);
    }
}

proof fn lemma_items_fit(c: Cursor, indent: SpanView)
    requires
        c.wf(),
        covers(c.text, indent),
    ensures
        items_fit(items(c, indent).value, c.text),
        all_fit(items(c, indent).errors, c.text),
    decreases c.left(),
{
    lemma_no_errors(c.text);
    if !c.at_end() {
        lemma_forward(c.text, indent);
        let i = item(c, indent.len());
        lemma_item(c, indent.len());
        lemma_item_fits(c, indent.len());
        let odd = indent.start < indent.end;
        let e = plain_error("unexpected indent"@, indent, "here"@);
        lemma_plain_fits("unexpected indent"@, indent, "here"@, c.text);
        lemma_fits_if(odd, e, c.text);
        lemma_both_fit(error_if(odd, e), i.errors, c.text);
        lemma_items_fit(i.next, i.indent);
        lemma_both_fit(error_if(odd, e) + i.errors, items(i.next, i.indent).errors, c.text);
    }
}

pub proof fn lemma_file_fits(c: Cursor)
    requires
        c.wf(),
    ensures
        file(c).value.fits(c.text),
        all_fit(file(c).errors, c.text),
{
    let f = filler(c);
    let w = whitespace(f.next);
    lemma_filler(c);
    lemma_filler_fits(c);
    lemma_whitespace(f.next);
    lemma_whitespace_fits(f.next);
    lemma_items_fit(w.next, w.value);
    lemma_both_fit(f.errors, w.errors, c.text);
    lemma_both_fit(f.errors + w.errors, items(w.next, w.value).errors, c.text);
}

// -------------------------------------------------------------------- printing

proof fn lemma_bindings_printable(bindings: BindingsView, text: Seq<char>)
    requires
        bindings_fit(bindings, text),
    ensures
        bindings_printable(bindings),
{
    assert forall|i: int| 0 <= i < bindings.len() implies (
    #[trigger] bindings[i]).1.printable() by {
        lemma_forward(text, bindings[i].1.indent_span);
    }
}

pub proof fn lemma_item_printable(item: ItemView, text: Seq<char>)
    requires
        item.fits(text),
    ensures
        item.printable(),
    decreases item,
{
    match item {
        ItemView::Let(_) => {},
        ItemView::Rule(stmt) => lemma_bindings_printable(stmt.bindings, text),
        ItemView::Build(stmt) => lemma_bindings_printable(stmt.bindings, text),
        ItemView::Default(_) => {},
        ItemView::Pool(stmt) => lemma_bindings_printable(stmt.bindings, text),
        ItemView::For(stmt) => lemma_body_printable(stmt.items, text),
    }
}

proof fn lemma_body_printable(items: Seq<ForBodyItemView>, text: Seq<char>)
    requires
        forall|i: int| 0 <= i < items.len() ==> (#[trigger] items[i]).fits(text),
    ensures
        body_printable(items),
    decreases items,
{
    if items.len() > 0 {
        let last = items.last();
        assert(last.fits(text));
        lemma_forward(text, last.indent_span);
        lemma_item_printable(last.item, text);
        assert(last.printable());
        lemma_body_printable(items.drop_last(), text);
    }
}

pub proof fn lemma_file_printable(file: MexFileView, text: Seq<char>)
    requires
        file.fits(text),
    ensures
        file.printable(),
{
    assert forall|i: int| 0 <= i < file.items.len() implies (
    #[trigger] file.items[i]).0.printable() by {
        lemma_item_printable(file.items[i].0, text);
    }
}

} // verus!
