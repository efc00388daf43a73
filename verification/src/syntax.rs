//! The grammar of statements.

use vstd::prelude::*;

use crate::ast::{EvalStringView, VarnameView};
use crate::code::{Cursor, SpanView};
use crate::error::{
    expected_error, missing_depth_error, plain_error, unexpected_variable_error, ErrorView,
};
use crate::grammar::{
    blanks, error_if, eval_string, in_line, is_space, line_rules, name_char, path_rules, scan,
    varname, whitespace, Parsed,
};
use crate::progress::{lemma_for_header, lemma_for_word, lemma_with_filler};
use crate::stmt::{
    BindingView, BindingsView, BuildView, CommentView, DefaultView, FillerView, ForBodyItemView,
    ForView, ItemView, ItemsView, LetView, MexFileView, PoolView, RuleView,
};

verus! {

// ---------------------------------------------------------------------- paths

/// A path.
#[verifier::opaque]
pub open spec fn path(c: Cursor) -> Parsed<EvalStringView> {
    eval_string(c, path_rules())
}

/// The rest of a line.
#[verifier::opaque]
pub open spec fn line_value(c: Cursor) -> Parsed<EvalStringView> {
    eval_string(c, line_rules())
}

/// Paths, each with the white space behind it.
pub open spec fn paths_from(c: Cursor) -> Parsed<Seq<EvalStringView>>
    decreases c.left(),
{
    let p = path(c);
    let w = whitespace(p.next);
    if p.value.pieces.len() > 0 && c.advances(w.next) && !c.at_end() {
        let rest = paths_from(w.next);
        Parsed {
            value: seq![p.value] + rest.value,
            next: rest.next,
            errors: p.errors + w.errors + rest.errors,
        }
    } else {
        Parsed { value: seq![], next: w.next, errors: p.errors + w.errors }
    }
}

/// Paths, with white space around them.
#[verifier::opaque]
pub open spec fn paths(c: Cursor) -> Parsed<Seq<EvalStringView>> {
    let w = whitespace(c);
    let p = paths_from(w.next);
    Parsed { value: p.value, next: p.next, errors: w.errors + p.errors }
}

/// The paths behind `sign`, if it stands ahead.
#[verifier::opaque]
pub open spec fn section(c: Cursor, sign: Seq<char>) -> Parsed<Seq<EvalStringView>> {
    if c.sees_text(sign) {
        paths(c.skip(sign.len() as int))
    } else {
        Parsed { value: seq![], next: c, errors: seq![] }
    }
}

// --------------------------------------------------------------------- filler

pub open spec fn missing_newline_error(c: Cursor) -> ErrorView {
    expected_error("expected newline"@, "\n"@, c.here(), "here"@)
}

/// How many lines ahead hold nothing but spaces, and the place behind them.
pub open spec fn blank_lines(c: Cursor) -> (nat, Cursor)
    decreases c.left(),
{
    let d = scan(c, is_space());
    let next = d.skip(d.newline());
    if d.newline() > 0 && c.advances(next) && !c.at_end() {
        let (n, end) = blank_lines(next);
        (n + 1, end)
    } else {
        (0, c)
    }
}

/// Whether a comment is the first thing in the line ahead.
pub open spec fn at_comment(c: Cursor) -> bool {
    scan(c, is_space()).sees('#')
}

/// A comment with the blank lines behind it. Its text begins with the spaces before it,
/// and its range runs backwards.
pub open spec fn comment(c: Cursor) -> Parsed<CommentView> {
    let e = scan(scan(c, is_space()).skip(1), in_line());
    let (more, end) = blank_lines(e.skip(e.newline()));
    Parsed {
        value: CommentView { text_span: e.to(c), text: c.text_to(e), post_newlines: 1 + more },
        next: end,
        errors: error_if(e.newline() == 0, missing_newline_error(e)),
    }
}

pub open spec fn comments(c: Cursor) -> Parsed<Seq<CommentView>>
    decreases c.left(),
{
    let k = comment(c);
    if at_comment(c) && c.advances(k.next) && !c.at_end() {
        let rest = comments(k.next);
        Parsed {
            value: seq![k.value] + rest.value,
            next: rest.next,
            errors: k.errors + rest.errors,
        }
    } else {
        Parsed { value: seq![], next: c, errors: seq![] }
    }
}

/// Blank lines and comments.
#[verifier::opaque]
pub open spec fn filler(c: Cursor) -> Parsed<FillerView> {
    let (n, d) = blank_lines(c);
    let k = comments(d);
    Parsed {
        value: FillerView { span: c.to(k.next), start_newlines: n, comments: k.value },
        next: k.next,
        errors: k.errors,
    }
}

// ---------------------------------------------------------------------- lines

/// What is wrong at a place where a line should end. A colon or a pipe has an error of
/// its own where `colon` or `pipe` says so.
pub open spec fn line_end_error(c: Cursor, colon: bool, pipe: bool) -> ErrorView {
    if colon && c.sees(':') {
        plain_error("unexpected colon"@, c.to(c.skip(1)), "here"@)
    } else if pipe && c.sees('|') {
        plain_error("unexpected pipe"@, c.to(c.skip(1)), "here"@)
    } else {
        missing_newline_error(c)
    }
}

/// The end of a line. What stands before it is skipped, with an error.
#[verifier::opaque]
pub open spec fn line_end(c: Cursor, colon: bool, pipe: bool) -> Parsed<()> {
    if c.newline() > 0 {
        Parsed { value: (), next: c.skip(c.newline()), errors: seq![] }
    } else {
        let d = scan(c, in_line());
        Parsed {
            value: (),
            next: d.skip(d.newline()),
            errors: seq![line_end_error(c, colon, pipe)],
        }
    }
}

/// What follows the name `var`: an equals sign and a value.
#[verifier::opaque]
pub open spec fn let_stmt(c: Cursor, var: VarnameView) -> Parsed<LetView> {
    if var.valid() {
        let w = whitespace(c);
        let signed = w.next.sees('=');
        let v = line_value(
            blanks(
                if signed {
                    w.next.skip(1)
                } else {
                    w.next
                },
            ),
        );
        Parsed {
            value: LetView { var, value: v.value },
            next: v.next,
            errors: w.errors + error_if(
                !signed,
                expected_error(
                    "expected assignment operator '='"@,
                    " = "@,
                    w.next.here(),
                    "here"@,
                ),
            ) + v.errors,
        }
    } else {
        let v = line_value(blanks(c));
        Parsed {
            value: LetView { var, value: v.value },
            next: v.next,
            errors: seq![
                expected_error(
                    "expected a variable name"@,
                    "<variable_name> = "@,
                    c.here(),
                    "here"@,
                ),
            ] + v.errors,
        }
    }
}

/// A name, and the end of the line. Where there is no name, the error says that one like
/// `expected` is missing.
#[verifier::opaque]
pub open spec fn header(c: Cursor, title: Seq<char>, expected: Seq<char>) -> Parsed<VarnameView> {
    let w = whitespace(c);
    let (name, d) = varname(w.next, false);
    let w2 = whitespace(d);
    let e = line_end(w2.next, false, false);
    Parsed {
        value: name,
        next: e.next,
        errors: w.errors + error_if(
            !name.valid(),
            expected_error(title, expected, d.here(), "here"@),
        ) + w2.errors + e.errors,
    }
}

// --------------------------------------------------------------------- blocks

/// The statements that have bindings.
#[derive(Debug, Clone, Copy, PartialEq, Eq, Structural)]
pub enum BlockKind {
    Rule,
    Build,
    Pool,
}

/// The variables that a rule may bind.
pub open spec fn reserved_binding(var: Seq<char>) -> bool {
    ||| var == "command"@
    ||| var == "depfile"@
    ||| var == "dyndep"@
    ||| var == "description"@
    ||| var == "deps"@
    ||| var == "generator"@
    ||| var == "pool"@
    ||| var == "restat"@
    ||| var == "rspfile"@
    ||| var == "rspfile_content"@
    ||| var == "msvc_deps_prefix"@
}

/// Whether a statement may not bind `var`.
pub open spec fn out_of_place(kind: BlockKind, var: VarnameView) -> bool {
    var.valid() && match kind {
        BlockKind::Rule => !reserved_binding(var.name),
        BlockKind::Build => false,
        BlockKind::Pool => var.name != "depth"@,
    }
}

pub open spec fn out_of_place_error(
    kind: BlockKind,
    var: VarnameView,
    while_parsing: SpanView,
) -> ErrorView {
    unexpected_variable_error(
        var.name,
        while_parsing,
        var.span,
        match kind {
            BlockKind::Pool => "pools must have only a 'depth' variable binding"@,
            _ => "rules may only bind certain variables"@,
        },
    )
}

/// A binding, with the cursor behind its indentation, and whether the statement keeps
/// it. In a rule, one of the signs `@` and `!` may stand for the name and the equals
/// sign.
#[verifier::opaque]
pub open spec fn binding(c: Cursor, kind: BlockKind, while_parsing: SpanView) -> (
    Parsed<LetView>,
    bool,
) {
    if kind == BlockKind::Rule && (c.sees('@') || c.sees('!')) {
        let d = c.skip(1);
        let v = line_value(d);
        (
            Parsed {
                value: LetView {
                    var: VarnameView { name: c.text_to(d), span: c.to(d) },
                    value: v.value,
                },
                next: v.next,
                errors: v.errors,
            },
            true,
        )
    } else {
        let (var, d) = varname(c, false);
        let l = let_stmt(d, var);
        let odd = out_of_place(kind, var);
        (
            Parsed {
                value: l.value,
                next: l.next,
                errors: l.errors + error_if(odd, out_of_place_error(kind, var, while_parsing)),
            },
            !(odd && kind == BlockKind::Pool),
        )
    }
}

/// The bindings of a statement, and what follows them: filler, and the indentation of
/// the next statement.
pub struct Block {
    pub bindings: BindingsView,
    pub filler: FillerView,
    pub indent: SpanView,
    pub next: Cursor,
    pub errors: Seq<ErrorView>,
}

/// The lines that are indented by more than `base`.
pub open spec fn block(
    c: Cursor,
    kind: BlockKind,
    base: int,
    while_parsing: SpanView,
) -> Block
    decreases c.left(),
{
    let f = filler(c);
    let w = whitespace(f.next);
    if w.value.len() <= base {
        Block {
            bindings: seq![],
            filler: f.value,
            indent: w.value,
            next: w.next,
            errors: f.errors + w.errors,
        }
    } else {
        let (b, kept) = binding(w.next, kind, while_parsing);
        let head = if kept {
            seq![(f.value, BindingView { indent_span: w.value, let_stmt: b.value })]
        } else {
            seq![]
        };
        let errors = f.errors + w.errors + b.errors;
        if c.advances(b.next) && !c.at_end() {
            let rest = block(b.next, kind, base, while_parsing);
            Block { bindings: head + rest.bindings, errors: errors + rest.errors, ..rest }
        } else {
            Block { bindings: head, filler: f.value, indent: w.value, next: b.next, errors }
        }
    }
}

// ----------------------------------------------------------------- statements

/// A statement, with what follows it: filler, and the indentation of the next statement.
pub struct Stmt<T> {
    pub value: T,
    pub filler: FillerView,
    pub indent: SpanView,
    pub next: Cursor,
    pub errors: Seq<ErrorView>,
}

/// What follows the word `rule`, which stands at `rule_span`.
#[verifier::opaque]
pub open spec fn rule_stmt(c: Cursor, base: int, rule_span: SpanView) -> Stmt<RuleView> {
    let h = header(c, "expected a rule name"@, " <rule_name>"@);
    let b = block(h.next, BlockKind::Rule, base, rule_span.join(h.value.span));
    Stmt {
        value: RuleView { rule_span, name: h.value, bindings: b.bindings },
        filler: b.filler,
        indent: b.indent,
        next: b.next,
        errors: h.errors + b.errors,
    }
}

/// What follows the word `pool`, which stands at `pool_span`.
#[verifier::opaque]
pub open spec fn pool_stmt(c: Cursor, base: int, pool_span: SpanView) -> Stmt<PoolView> {
    let h = header(c, "expected a pool name"@, "<pool_name>"@);
    let while_parsing = pool_span.join(h.value.span);
    let b = block(h.next, BlockKind::Pool, base, while_parsing);
    let insert = SpanView { start: b.filler.span.start, end: b.filler.span.start };
    Stmt {
        value: PoolView { pool_span, name: h.value, bindings: b.bindings },
        filler: b.filler,
        indent: b.indent,
        next: b.next,
        errors: h.errors + b.errors + error_if(
            b.bindings.len() == 0,
            missing_depth_error(while_parsing, b.next.here(), insert),
        ),
    }
}

/// The first half of a `build` line: the paths that it builds, and the rule.
#[verifier::opaque]
pub open spec fn build_outputs(c: Cursor) -> Parsed<
    (Seq<EvalStringView>, Seq<EvalStringView>, VarnameView),
> {
    let outs = paths(c);
    let implicit = section(outs.next, "|"@);
    let d = implicit.next;
    let parted = d.sees(':');
    let w = whitespace(
        if parted {
            d.skip(1)
        } else {
            d
        },
    );
    let (rule, next) = varname(w.next, false);
    Parsed {
        value: (outs.value, implicit.value, rule),
        next,
        errors: outs.errors + implicit.errors + error_if(
            outs.value.len() == 0 && implicit.value.len() == 0,
            expected_error("expected output path"@, "<output-path>"@, d.here(), "here"@),
        ) + error_if(
            !parted,
            expected_error("expected colon"@, ":"@, d.here(), "here"@),
        ) + w.errors + error_if(
            !rule.valid(),
            expected_error("expected a rule name"@, "<rule_name>"@, next.here(), "here"@),
        ),
    }
}

/// The paths that a `build` line names behind its rule.
pub struct Inputs {
    pub deps: Seq<EvalStringView>,
    pub implicit_deps: Seq<EvalStringView>,
    pub order_only_deps: Seq<EvalStringView>,
    pub validations: Seq<EvalStringView>,
}

/// The second half of a `build` line. A sign is looked for only where the paths before it
/// end, so that two pipes are found only behind implicit dependencies: elsewhere the
/// first of them is taken for the sign of these.
#[verifier::opaque]
pub open spec fn build_inputs(c: Cursor) -> Parsed<Inputs> {
    let deps = paths(c);
    let implicit = section(deps.next, "|"@);
    let order_only = section(implicit.next, "||"@);
    let validations = section(order_only.next, "|@"@);
    let e = line_end(validations.next, true, false);
    Parsed {
        value: Inputs {
            deps: deps.value,
            implicit_deps: implicit.value,
            order_only_deps: order_only.value,
            validations: validations.value,
        },
        next: e.next,
        errors: deps.errors + implicit.errors + order_only.errors + validations.errors
            + e.errors,
    }
}

/// What follows the word `build`, which stands at `build_span`.
#[verifier::opaque]
pub open spec fn build_stmt(c: Cursor, base: int, build_span: SpanView) -> Stmt<BuildView> {
    let o = build_outputs(c);
    let i = build_inputs(o.next);
    let b = block(i.next, BlockKind::Build, base, build_span);
    Stmt {
        value: BuildView {
            build_span,
            outs: o.value.0,
            implicit_outs: o.value.1,
            rule: o.value.2,
            deps: i.value.deps,
            implicit_deps: i.value.implicit_deps,
            order_only_deps: i.value.order_only_deps,
            validations: i.value.validations,
            bindings: b.bindings,
        },
        filler: b.filler,
        indent: b.indent,
        next: b.next,
        errors: o.errors + i.errors + b.errors,
    }
}

/// What follows the word `default`, which stands at `default_span`.
#[verifier::opaque]
pub open spec fn default_stmt(c: Cursor, default_span: SpanView) -> Parsed<DefaultView> {
    let outs = paths(c);
    let e = line_end(outs.next, true, true);
    Parsed {
        value: DefaultView { default_span, outs: outs.value },
        next: e.next,
        errors: outs.errors + e.errors,
    }
}

/// A statement of one line, with what follows it.
pub open spec fn with_filler<T>(p: Parsed<T>) -> Stmt<T> {
    let f = filler(p.next);
    let w = whitespace(f.next);
    Stmt {
        value: p.value,
        filler: f.value,
        indent: w.value,
        next: w.next,
        errors: p.errors + f.errors + w.errors,
    }
}

/// The line of a `for`, behind that word: the variable and the values.
#[verifier::opaque]
pub open spec fn for_header(c: Cursor) -> Parsed<(VarnameView, EvalStringView)> {
    let w = whitespace(c);
    let (var, d) = varname(w.next, false);
    let w2 = whitespace(d);
    let worded = w2.next.sees_text("in"@);
    let w3 = whitespace(
        if worded {
            w2.next.skip("in"@.len() as int)
        } else {
            w2.next
        },
    );
    let plain = w3.next.peek() is Some && name_char(w3.next.peek()->0, false);
    let v = line_value(w3.next);
    Parsed {
        value: (var, v.value),
        next: v.next,
        errors: w.errors + error_if(
            !var.valid(),
            expected_error("expected a variable name"@, " <var_name>"@, d.here(), "here"@),
        ) + w2.errors + error_if(
            !worded,
            expected_error("expected 'in'"@, " in"@, w2.next.here(), "here"@),
        ) + w3.errors + error_if(
            !plain,
            expected_error("expected a space ' '"@, " "@, w3.next.here(), "here"@),
        ) + v.errors,
    }
}

/// What follows the word `for`, which stands at `for_span`: its line, and the statements
/// that are indented by more than `base`.
pub open spec fn for_stmt(c: Cursor, base: int, for_span: SpanView) -> Stmt<ForView>
    decreases c.left(), 2nat,
    when c.wf()
{
    let h = with_filler(for_header(c));
    proof {
        lemma_for_header(c);
        lemma_with_filler(for_header(c));
    }
    for_with_body(h, for_span, for_body(h.next, base, h.filler, h.indent))
}

/// A `for` with the line `h` and the body `b`.
pub open spec fn for_with_body(
    h: Stmt<(VarnameView, EvalStringView)>,
    for_span: SpanView,
    b: Stmt<Seq<ForBodyItemView>>,
) -> Stmt<ForView> {
    Stmt {
        value: ForView { for_span, var: h.value.0, values: h.value.1, items: b.value },
        filler: b.filler,
        indent: b.indent,
        next: b.next,
        errors: h.errors + b.errors,
    }
}

/// The statements of a body from `c` on, the first of which stands behind `filler` and
/// is indented by `indent`.
pub open spec fn for_body(
    c: Cursor,
    base: int,
    filler: FillerView,
    indent: SpanView,
) -> Stmt<Seq<ForBodyItemView>>
    decreases c.left(), 1nat,
{
    if indent.len() <= base {
        Stmt { value: seq![], filler, indent, next: c, errors: seq![] }
    } else {
        let i = item(c, indent.len());
        if c.advances(i.next) && !c.at_end() {
            body_with_rest(filler, indent, i, for_body(i.next, base, i.filler, i.indent))
        } else {
            body_with_rest(
                filler,
                indent,
                i,
                Stmt {
                    value: seq![],
                    filler: i.filler,
                    indent: i.indent,
                    next: i.next,
                    errors: seq![],
                },
            )
        }
    }
}

/// A body that begins with the statement `i` and goes on with `rest`.
pub open spec fn body_with_rest(
    filler: FillerView,
    indent: SpanView,
    i: Stmt<ItemView>,
    rest: Stmt<Seq<ForBodyItemView>>,
) -> Stmt<Seq<ForBodyItemView>> {
    Stmt {
        value: seq![
            ForBodyItemView { filler, indent_span: indent, item: i.value },
        ] + rest.value,
        errors: i.errors + rest.errors,
        ..rest
    }
}

/// Puts a statement among the statements of all sorts.
pub open spec fn as_item<T>(s: Stmt<T>, value: ItemView) -> Stmt<ItemView> {
    Stmt { value, filler: s.filler, indent: s.indent, next: s.next, errors: s.errors }
}

/// The statement that begins with the name `name`, which ends at `c`, unless it is a `for`.
#[verifier::opaque]
pub open spec fn simple_item(c: Cursor, indent: int, name: VarnameView) -> Stmt<ItemView> {
    if name.name == "rule"@ {
        let s = rule_stmt(c, indent, name.span);
        as_item(s, ItemView::Rule(s.value))
    } else if name.name == "build"@ {
        let s = build_stmt(c, indent, name.span);
        as_item(s, ItemView::Build(s.value))
    } else if name.name == "default"@ {
        let s = with_filler(default_stmt(c, name.span));
        as_item(s, ItemView::Default(s.value))
    } else if name.name == "pool"@ {
        let s = pool_stmt(c, indent, name.span);
        as_item(s, ItemView::Pool(s.value))
    } else {
        let s = with_filler(let_stmt(c, name));
        as_item(s, ItemView::Let(s.value))
    }
}

/// A statement that is indented by `indent`, with the cursor behind its indentation. The
/// word that it begins with says which one it is.
pub open spec fn item(c: Cursor, indent: int) -> Stmt<ItemView>
    decreases c.left(), 0nat,
    when c.wf()
{
    let (name, d) = varname(c, false);
    if name.name == "for"@ {
        proof {
            lemma_for_word(c);
        }
        let s = for_stmt(d, indent, name.span);
        as_item(s, ItemView::For(s.value))
    } else {
        simple_item(d, indent, name)
    }
}

/// The statements of a file, the first of which is indented by `indent`.
pub open spec fn items(c: Cursor, indent: SpanView) -> Parsed<ItemsView>
    decreases c.left(),
{
    if c.at_end() {
        Parsed { value: seq![], next: c, errors: seq![] }
    } else {
        let i = item(c, indent.len());
        let head = seq![(i.value, i.filler)];
        let errors = error_if(
            indent.start < indent.end,
            plain_error("unexpected indent"@, indent, "here"@),
        ) + i.errors;
        if c.advances(i.next) {
            let rest = items(i.next, i.indent);
            Parsed {
                value: head + rest.value,
                next: rest.next,
                errors: errors + rest.errors,
            }
        } else {
            Parsed { value: head, next: i.next, errors }
        }
    }
}

/// A whole file.
pub open spec fn file(c: Cursor) -> Parsed<MexFileView> {
    let f = filler(c);
    let w = whitespace(f.next);
    let i = items(w.next, w.value);
    Parsed {
        value: MexFileView { opening_filler: f.value, items: i.value },
        next: i.next,
        errors: f.errors + w.errors + i.errors,
    }
}

} // verus!
