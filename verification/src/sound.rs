//! What a text without errors says.

use vstd::prelude::*;

use crate::ast::{EvalStringView, PieceDataView, PieceView, VarnameView};
use crate::code::{Cursor, SpanView};
use crate::grammar::{
    blanks, dollar, eval_from, eval_step, eval_string, expansion, func_rules, lemma_blanks,
    lemma_literal, line_rules, literal, path_rules, quoted, quoted_value, varname, whitespace,
    EvalRules, QuoteState,
};
use crate::progress::{
    lemma_binding, lemma_build_inputs, lemma_build_outputs, lemma_eval_step, lemma_filler,
    lemma_for_header, lemma_for_word, lemma_header, lemma_item, lemma_path, lemma_paths,
    lemma_section, lemma_varname, lemma_whitespace, lemma_with_filler,
};
use crate::stmt::{
    BindingsView, BuildView, DefaultView, FillerView, ForBodyItemView, ForView, ItemView, LetView,
    MexFileView, PoolView, RuleView,
};
use crate::syntax::{
    binding, block, build_inputs, build_outputs, build_stmt, default_stmt, file, filler, for_body,
    for_header, for_stmt, header, item, items, let_stmt, line_value, path, paths, paths_from,
    pool_stmt, reserved_binding, rule_stmt, section, simple_item, with_filler, BlockKind,
};

verus! {

// -------------------------------------------------------------------- the tree

impl PieceView {
    /// No name in the part is missing.
    pub open spec fn sound(self) -> bool
        decreases self,
    {
        match self.data {
            PieceDataView::Literal(_) => true,
            PieceDataView::Var(name) => name.valid(),
            PieceDataView::QuoteVar(name) => name.valid(),
            PieceDataView::Func(f) => f.sound(),
            PieceDataView::QuoteFunc(f) => f.sound(),
        }
    }
}

impl EvalStringView {
    /// No name in the text is missing.
    pub open spec fn sound(self) -> bool
        decreases self,
    {
        forall|i: int| 0 <= i < self.pieces.len() ==> (#[trigger] self.pieces[i]).sound()
    }
}

pub open spec fn pieces_sound(pieces: Seq<PieceView>) -> bool {
    forall|i: int| 0 <= i < pieces.len() ==> (#[trigger] pieces[i]).sound()
}

pub open spec fn paths_sound(paths: Seq<EvalStringView>) -> bool {
    forall|i: int| 0 <= i < paths.len() ==> (#[trigger] paths[i]).sound()
}

impl LetView {
    /// No name in the statement is missing.
    pub open spec fn sound(self) -> bool {
        self.var.valid() && self.value.sound()
    }

    /// A statement of this kind may hold the binding.
    pub open spec fn belongs(self, kind: BlockKind) -> bool {
        match kind {
            BlockKind::Rule => reserved_binding(self.var.name) || self.var.name == "@"@
                || self.var.name == "!"@,
            BlockKind::Build => true,
            BlockKind::Pool => self.var.name == "depth"@,
        }
    }
}

pub open spec fn bindings_sound(bindings: BindingsView, kind: BlockKind) -> bool {
    forall|i: int|
        0 <= i < bindings.len() ==> (#[trigger] bindings[i]).1.let_stmt.sound()
            && bindings[i].1.let_stmt.belongs(kind)
}

impl RuleView {
    /// The rule has a name, and binds only what rules may bind.
    pub open spec fn sound(self) -> bool {
        self.name.valid() && bindings_sound(self.bindings, BlockKind::Rule)
    }
}

impl BuildView {
    /// There is something to build, and a rule.
    pub open spec fn sound(self) -> bool {
        &&& self.outs.len() > 0 || self.implicit_outs.len() > 0
        &&& self.rule.valid()
        &&& paths_sound(self.outs)
        &&& paths_sound(self.implicit_outs)
        &&& paths_sound(self.deps)
        &&& paths_sound(self.implicit_deps)
        &&& paths_sound(self.order_only_deps)
        &&& paths_sound(self.validations)
        &&& bindings_sound(self.bindings, BlockKind::Build)
    }
}

impl DefaultView {
    pub open spec fn sound(self) -> bool {
        paths_sound(self.outs)
    }
}

impl PoolView {
    /// The pool has a name, and binds its depth and nothing else.
    pub open spec fn sound(self) -> bool {
        self.name.valid() && self.bindings.len() > 0 && bindings_sound(
            self.bindings,
            BlockKind::Pool,
        )
    }
}

impl ForView {
    /// The variable has a name, and the statements of the body are sound.
    pub open spec fn sound(self) -> bool
        decreases self,
    {
        &&& self.var.valid()
        &&& self.values.sound()
        &&& forall|i: int| 0 <= i < self.items.len() ==> (#[trigger] self.items[i]).sound()
    }
}

impl ForBodyItemView {
    pub open spec fn sound(self) -> bool
        decreases self,
    {
        self.item.sound()
    }
}

impl ItemView {
    /// Nothing in the statement is missing or out of place.
    pub open spec fn sound(self) -> bool
        decreases self,
    {
        match self {
            ItemView::Let(stmt) => stmt.sound(),
            ItemView::Rule(stmt) => stmt.sound(),
            ItemView::Build(stmt) => stmt.sound(),
            ItemView::Default(stmt) => stmt.sound(),
            ItemView::Pool(stmt) => stmt.sound(),
            ItemView::For(stmt) => stmt.sound(),
        }
    }
}

impl MexFileView {
    /// Nothing in the file is missing or out of place.
    pub open spec fn sound(self) -> bool {
        forall|i: int| 0 <= i < self.items.len() ==> (#[trigger] self.items[i]).0.sound()
    }
}

// ------------------------------------------------------- texts with variables

proof fn lemma_quoted_value_sound(c: Cursor)
    requires
        c.wf(),
        quoted_value(c).0.errors.len() == 0,
    ensures
        forall|span: SpanView| (PieceView { span, data: quoted_value(c).0.value }).sound(),
    decreases c.left(), 4nat,
{
    if c.sees('(') {
        lemma_eval_string_sound(c.skip(1), func_rules());
    }
}

proof fn lemma_dollar_sound(c: Cursor, q: QuoteState, quotes: bool)
    requires
        c.wf(),
        c.sees('$'),
        dollar(c, q, quotes).errors.len() == 0,
    ensures
        pieces_sound(dollar(c, q, quotes).pieces),
    decreases c.left(), 1nat,
{
    let e = c.skip(1);
    if e.sees('$') || e.sees(':') || e.sees(' ') || e.sees('^') || e.newline() > 0 {
    } else if e.sees('"') || e.sees('\'') {
        assert(dollar(c, q, quotes) == quoted(c, q));
        lemma_quoted_value_sound(c.skip(2));
    } else {
        assert(dollar(c, q, quotes) == expansion(c, q, quotes));
        if e.sees('(') {
            lemma_eval_string_sound(e.skip(1), func_rules());
        }
    }
}

proof fn lemma_eval_step_sound(c: Cursor, q: QuoteState, rules: EvalRules)
    requires
        c.wf(),
        eval_step(c, q, rules).errors.len() == 0,
    ensures
        pieces_sound(eval_step(c, q, rules).pieces),
    decreases c.left(), 2nat,
{
    let (d, r) = literal(c, q, rules);
    lemma_literal(c, q, rules);
    if d.newline() == 0 && d.sees('$') && !rules.stop.contains('$') {
        lemma_dollar_sound(d, r, rules.quotes);
    }
}

proof fn lemma_eval_from_sound(c: Cursor, q: QuoteState, rules: EvalRules)
    requires
        c.wf(),
        eval_from(c, q, rules).errors.len() == 0,
    ensures
        pieces_sound(eval_from(c, q, rules).pieces),
    decreases c.left(), 3nat,
{
    let s = eval_step(c, q, rules);
    lemma_eval_step(c, q, rules);
    lemma_eval_step_sound(c, q, rules);
    if s.more is Some {
        lemma_eval_from_sound(s.next, s.more->0, rules);
    }
}

pub proof fn lemma_eval_string_sound(c: Cursor, rules: EvalRules)
    requires
        c.wf(),
        eval_string(c, rules).errors.len() == 0,
    ensures
        eval_string(c, rules).value.sound(),
    decreases c.left(), 4nat,
{
    lemma_eval_from_sound(c, QuoteState::initial(), rules);
    let r = eval_from(c, QuoteState::initial(), rules);
    assert(eval_string(c, rules).value.pieces == r.pieces);
}

// ------------------------------------------------------------------ statements

proof fn lemma_line_value_sound(c: Cursor)
    requires
        c.wf(),
        line_value(c).errors.len() == 0,
    ensures
        line_value(c).value.sound(),
{
    reveal(line_value);
    lemma_eval_string_sound(c, line_rules());
}

proof fn lemma_paths_from_sound(c: Cursor)
    requires
        c.wf(),
        paths_from(c).errors.len() == 0,
    ensures
        paths_sound(paths_from(c).value),
    decreases c.left(),
{
    let p = path(c);
    let w = whitespace(p.next);
    lemma_path(c);
    lemma_whitespace(p.next);
    assert(path(c).value.sound()) by {
        reveal(path);
        lemma_eval_string_sound(c, path_rules());
    }
    if p.value.pieces.len() > 0 {
        lemma_paths_from_sound(w.next);
    }
}

proof fn lemma_paths_sound(c: Cursor)
    requires
        c.wf(),
        paths(c).errors.len() == 0,
    ensures
        paths_sound(paths(c).value),
{
    reveal(paths);
    lemma_whitespace(c);
    lemma_paths_from_sound(whitespace(c).next);
}

proof fn lemma_section_sound(c: Cursor, sign: Seq<char>)
    requires
        c.wf(),
        section(c, sign).errors.len() == 0,
    ensures
        paths_sound(section(c, sign).value),
{
    reveal(section);
    if c.sees_text(sign) {
        lemma_paths_sound(c.skip(sign.len() as int));
    }
}

proof fn lemma_let_stmt_sound(c: Cursor, var: VarnameView)
    requires
        c.wf(),
        let_stmt(c, var).errors.len() == 0,
    ensures
        let_stmt(c, var).value.sound(),
        let_stmt(c, var).value.var == var,
{
    reveal(let_stmt);
    if var.valid() {
        let w = whitespace(c).next;
        lemma_whitespace(c);
        let d = if w.sees('=') {
            w.skip(1)
        } else {
            w
        };
        lemma_blanks(d);
        lemma_line_value_sound(blanks(d));
    }
}

proof fn lemma_binding_sound(c: Cursor, kind: BlockKind, while_parsing: SpanView)
    requires
        c.wf(),
        binding(c, kind, while_parsing).0.errors.len() == 0,
    ensures
        binding(c, kind, while_parsing).0.value.sound(),
        binding(c, kind, while_parsing).0.value.belongs(kind),
        binding(c, kind, while_parsing).1,
{
    reveal(binding);
    if kind == BlockKind::Rule && (c.sees('@') || c.sees('!')) {
        let d = c.skip(1);
        lemma_line_value_sound(d);
        reveal_strlit("@");
        reveal_strlit("!");
        reveal_strlit("<invalid-name>");
        assert(c.text_to(d).len() == 1);
        assert("<invalid-name>"@.len() == 14);
        if c.sees('@') {
            assert(c.text_to(d) =~= "@"@);
        } else {
            assert(c.text_to(d) =~= "!"@);
        }
    } else {
        let (var, d) = varname(c, false);
        lemma_varname(c, false);
        lemma_let_stmt_sound(d, var);
    }
}

proof fn lemma_block_sound(c: Cursor, kind: BlockKind, base: int, while_parsing: SpanView)
    requires
        c.wf(),
        base >= 0,
        block(c, kind, base, while_parsing).errors.len() == 0,
    ensures
        bindings_sound(block(c, kind, base, while_parsing).bindings, kind),
    decreases c.left(),
{
    let f = filler(c);
    let w = whitespace(f.next);
    lemma_filler(c);
    lemma_whitespace(f.next);
    if w.value.len() > base {
        let b = binding(w.next, kind, while_parsing).0;
        lemma_binding(w.next, kind, while_parsing);
        assert(b.errors.len() == 0);
        lemma_binding_sound(w.next, kind, while_parsing);
        lemma_block_sound(b.next, kind, base, while_parsing);
    }
}

proof fn lemma_simple_item_sound(c: Cursor, indent: int, name: VarnameView)
    requires
        c.wf(),
        indent >= 0,
        simple_item(c, indent, name).errors.len() == 0,
    ensures
        simple_item(c, indent, name).value.sound(),
{
    reveal(simple_item);
    if name.name == "rule"@ {
        reveal(rule_stmt);
        let h = header(c, "expected a rule name"@, " <rule_name>"@);
        lemma_header(c, "expected a rule name"@, " <rule_name>"@);
        lemma_header_sound(c, "expected a rule name"@, " <rule_name>"@);
        lemma_block_sound(h.next, BlockKind::Rule, indent, name.span.join(h.value.span));
    } else if name.name == "build"@ {
        lemma_build_sound(c, indent, name.span);
    } else if name.name == "default"@ {
        assert(default_stmt(c, name.span).value.sound()) by {
            reveal(default_stmt);
            lemma_paths_sound(c);
        }
    } else if name.name == "pool"@ {
        reveal(pool_stmt);
        let h = header(c, "expected a pool name"@, "<pool_name>"@);
        lemma_header(c, "expected a pool name"@, "<pool_name>"@);
        lemma_header_sound(c, "expected a pool name"@, "<pool_name>"@);
        lemma_block_sound(h.next, BlockKind::Pool, indent, name.span.join(h.value.span));
    } else {
        lemma_let_stmt_sound(c, name);
    }
}

proof fn lemma_header_sound(c: Cursor, title: Seq<char>, expected: Seq<char>)
    requires
        header(c, title, expected).errors.len() == 0,
    ensures
        header(c, title, expected).value.valid(),
{
    reveal(header);
}

proof fn lemma_build_sound(c: Cursor, base: int, span: SpanView)
    requires
        c.wf(),
        base >= 0,
        build_stmt(c, base, span).errors.len() == 0,
    ensures
        build_stmt(c, base, span).value.sound(),
{
    reveal(build_stmt);
    let o = build_outputs(c);
    lemma_build_outputs(c);
    let i = build_inputs(o.next);
    lemma_build_inputs(o.next);
    lemma_block_sound(i.next, BlockKind::Build, base, span);
    assert(o.errors.len() == 0);
    assert(i.errors.len() == 0);
    assert(paths_sound(o.value.0) && paths_sound(o.value.1) && o.value.2.valid() && (
    o.value.0.len() > 0 || o.value.1.len() > 0)) by {
        reveal(build_outputs);
        lemma_paths(c);
        lemma_paths_sound(c);
        lemma_section_sound(paths(c).next, "|"@);
    }
    assert(paths_sound(i.value.deps) && paths_sound(i.value.implicit_deps) && paths_sound(
        i.value.order_only_deps,
    ) && paths_sound(i.value.validations)) by {
        reveal(build_inputs);
        let c1 = paths(o.next).next;
        lemma_paths(o.next);
        lemma_paths_sound(o.next);
        let c2 = section(c1, "|"@).next;
        lemma_section(c1, "|"@);
        lemma_section_sound(c1, "|"@);
        let c3 = section(c2, "||"@).next;
        lemma_section(c2, "||"@);
        lemma_section_sound(c2, "||"@);
        lemma_section_sound(c3, "|@"@);
    }
}

proof fn lemma_for_sound(c: Cursor, base: int, span: SpanView)
    requires
        c.wf(),
        base >= 0,
        for_stmt(c, base, span).errors.len() == 0,
    ensures
        for_stmt(c, base, span).value.sound(),
    decreases c.left(), 2nat,
{
    let h = with_filler(for_header(c));
    lemma_for_header(c);
    lemma_with_filler(for_header(c));
    assert(for_header(c).value.0.valid() && for_header(c).value.1.sound()) by {
        reveal(for_header);
        let w = whitespace(c).next;
        lemma_whitespace(c);
        let d = varname(w, false).1;
        lemma_varname(w, false);
        let w2 = whitespace(d).next;
        lemma_whitespace(d);
        let d2 = if w2.sees_text("in"@) {
            w2.skip("in"@.len() as int)
        } else {
            w2
        };
        lemma_whitespace(d2);
        lemma_line_value_sound(whitespace(d2).next);
    }
    lemma_for_body_sound(h.next, base, h.filler, h.indent);
}

proof fn lemma_for_body_sound(c: Cursor, base: int, filler: FillerView, indent: SpanView)
    requires
        c.wf(),
        base >= 0,
        indent.forward(),
        for_body(c, base, filler, indent).errors.len() == 0,
    ensures
        forall|i: int|
            0 <= i < for_body(c, base, filler, indent).value.len() ==> (
            #[trigger] for_body(c, base, filler, indent).value[i]).sound(),
    decreases c.left(), 1nat,
{
    if indent.len() > base {
        let i = item(c, indent.len());
        lemma_item(c, indent.len());
        lemma_item_sound(c, indent.len());
        let head = ForBodyItemView { filler, indent_span: indent, item: i.value };
        assert(head.sound());
        if c.advances(i.next) {
            lemma_for_body_sound(i.next, base, i.filler, i.indent);
        }
    }
}

proof fn lemma_item_sound(c: Cursor, indent: int)
    requires
        c.wf(),
        indent >= 0,
        item(c, indent).errors.len() == 0,
    ensures
        item(c, indent).value.sound(),
    decreases c.left(), 0nat,
{
    let (name, d) = varname(c, false);
    lemma_varname(c, false);
    if name.name == "for"@ {
        lemma_for_word(c);
        lemma_for_sound(d, indent, name.span);
    } else {
        lemma_simple_item_sound(d, indent, name);
    }
}

proof fn lemma_items_sound(c: Cursor, indent: SpanView)
    requires
        c.wf(),
        indent.forward(),
        items(c, indent).errors.len() == 0,
    ensures
        forall|i: int|
            0 <= i < items(c, indent).value.len() ==> (
            #[trigger] items(c, indent).value[i]).0.sound(),
    decreases c.left(),
{
    if !c.at_end() {
        let i = item(c, indent.len());
        lemma_item(c, indent.len());
        lemma_item_sound(c, indent.len());
        lemma_items_sound(i.next, i.indent);
        let rest = items(i.next, i.indent).value;
        assert forall|k: int| 0 <= k < items(c, indent).value.len() implies (
        #[trigger] items(c, indent).value[k]).0.sound() by {
            if k > 0 {
                assert(items(c, indent).value[k] == rest[k - 1]);
            }
        }
    }
}

pub proof fn lemma_file_sound(c: Cursor)
    requires
        c.wf(),
        file(c).errors.len() == 0,
    ensures
        file(c).value.sound(),
{
    lemma_filler(c);
    lemma_whitespace(filler(c).next);
    let w = whitespace(filler(c).next);
    lemma_items_sound(w.next, w.value);
}

} // verus!
