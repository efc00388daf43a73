//! What holds of the errors of statements: where each of them comes, and what it says.

use vstd::prelude::*;

use crate::ast::VarnameView;
use crate::code::{Cursor, SpanView};
use crate::error::{
    expected_error, missing_depth_error, plain_error, unexpected_variable_error, AnnotationKind,
    ErrorView,
};
use crate::grammar::{in_line, lemma_scan_is, name_chars, varname, whitespace};
use crate::laws_call::asks_for;
use crate::laws_sign::{asked_for, tells, told};
use crate::plain::{
    ahead, is_name, joined, law_characters_of_names, lemma_ahead, lemma_blanks_run, lemma_name,
    lemma_paths_list, lemma_peek, lemma_white, name_code, no_white, paths_ok, spaces, white_code,
    words_are, Part,
};
use crate::plain_stmt::{
    begins, gap_text, lemma_gap, lemma_list_cut, lemma_sees_text, remarks_ok, rule_binds, solid,
    Gap,
};
use crate::progress::lemma_invalid_name;
use crate::syntax::{
    binding, block, build_inputs, build_outputs, default_stmt, file, filler, for_header, header,
    items, let_stmt, line_end, paths, pool_stmt, rule_stmt, section, BlockKind,
};

verus! {

/// Where nothing of a name stands ahead, the name is missing.
proof fn lemma_no_name(c: Cursor, tail: Seq<char>)
    requires
        ahead(c, tail),
        tail.len() > 0 ==> !name_code(tail[0]),
    ensures
        varname(c, false).1 == c,
        !varname(c, false).0.valid(),
{
    lemma_peek(c, tail);
    if tail.len() > 0 {
        law_characters_of_names(tail[0], false);
    }
    lemma_scan_is(c, name_chars(false), c);
    lemma_invalid_name(c, false);
}

// ------------------------------------------------------------------ assignments

/// Where no equals sign stands behind a name, one is asked for, at the first character
/// that is no space.
pub proof fn law_equals_sign_is_asked_for(c: Cursor, var: VarnameView, k: nat, tail: Seq<char>)
    requires
        c.wf(),
        c.rest() == spaces(k) + tail,
        no_white(tail),
        tail.len() > 0 ==> tail[0] != '=',
        var.valid(),
    ensures
        asked_for(
            let_stmt(c, var).errors,
            "expected assignment operator '='"@,
            c.skip(k as int).offset(),
            seq![' ', '=', ' '],
        ),
{
    reveal(let_stmt);
    reveal(expected_error);
    reveal_strlit(" = ");
    assert(" = "@ =~= seq![' ', '=', ' ']);
    lemma_white(c, k, tail);
    lemma_peek(c.skip(k as int), tail);
    let e = let_stmt(c, var).errors;
    assert(asks_for(
        e[0],
        "expected assignment operator '='"@,
        c.skip(k as int).offset(),
        seq![' ', '=', ' '],
    ));
}

/// Where the name is missing, a name and an equals sign are asked for.
pub proof fn law_name_is_asked_for(c: Cursor, var: VarnameView)
    requires
        c.wf(),
        !var.valid(),
    ensures
        asked_for(
            let_stmt(c, var).errors,
            "expected a variable name"@,
            c.offset(),
            "<variable_name> = "@,
        ),
{
    reveal(let_stmt);
    reveal(expected_error);
    let e = let_stmt(c, var).errors;
    assert(asks_for(e[0], "expected a variable name"@, c.offset(), "<variable_name> = "@));
}

// ---------------------------------------------------------------------- headers

/// A rule or a pool without a name: one is asked for, at the first character that is no
/// space.
pub proof fn law_names_of_rules_and_pools_are_asked_for(
    c: Cursor,
    n: int,
    span: SpanView,
    k: nat,
    tail: Seq<char>,
)
    requires
        c.wf(),
        c.rest() == spaces(k) + tail,
        no_white(tail),
        tail.len() > 0 ==> !name_code(tail[0]),
    ensures
        asked_for(
            rule_stmt(c, n, span).errors,
            "expected a rule name"@,
            c.skip(k as int).offset(),
            " <rule_name>"@,
        ),
        asked_for(
            pool_stmt(c, n, span).errors,
            "expected a pool name"@,
            c.skip(k as int).offset(),
            "<pool_name>"@,
        ),
{
    reveal(rule_stmt);
    reveal(pool_stmt);
    reveal(header);
    reveal(expected_error);
    lemma_white(c, k, tail);
    lemma_no_name(c.skip(k as int), tail);
    let e = rule_stmt(c, n, span).errors;
    assert(asks_for(
        e[0],
        "expected a rule name"@,
        c.skip(k as int).offset(),
        " <rule_name>"@,
    ));
    let f = pool_stmt(c, n, span).errors;
    assert(asks_for(
        f[0],
        "expected a pool name"@,
        c.skip(k as int).offset(),
        "<pool_name>"@,
    ));
}

// -------------------------------------------------------------------- line ends

/// A line may end with a line feed, or with a carriage return before one.
pub proof fn law_lines_end(c: Cursor, colon: bool, pipe: bool, cr: bool, tail: Seq<char>)
    requires
        c.wf(),
        c.rest() == (if cr {
            seq!['\r', '\n']
        } else {
            seq!['\n']
        }) + tail,
    ensures
        line_end(c, colon, pipe).errors.len() == 0,
        line_end(c, colon, pipe).next.rest() == tail,
{
    reveal(line_end);
    let s = if cr {
        seq!['\r', '\n']
    } else {
        seq!['\n']
    };
    lemma_peek(c, s + tail);
    lemma_ahead(c, s, tail);
}

/// Where a line goes on though it should end, there is one error, at the character that
/// stands there, and the rest of the line is skipped.
pub proof fn law_rest_of_line_is_skipped(
    c: Cursor,
    colon: bool,
    pipe: bool,
    line: Seq<char>,
    tail: Seq<char>,
)
    requires
        c.wf(),
        c.rest() == line + (seq!['\n'] + tail),
        line.len() > 0,
        line[0] != '\r',
        forall|i: int| 0 <= i < line.len() ==> #[trigger] line[i] != '\n',
    ensures
        ({
            let p = line_end(c, colon, pipe);
            &&& p.next.rest() == tail
            &&& p.errors.len() == 1
            &&& if colon && line[0] == ':' {
                tells(p.errors[0], "unexpected colon"@, c.to(c.skip(1)))
            } else if pipe && line[0] == '|' {
                tells(p.errors[0], "unexpected pipe"@, c.to(c.skip(1)))
            } else {
                asks_for(p.errors[0], "expected newline"@, c.offset(), seq!['\n'])
            }
        }),
{
    reveal(line_end);
    reveal(expected_error);
    reveal(plain_error);
    reveal_strlit("\n");
    assert("\n"@ =~= seq!['\n']);
    let rest = seq!['\n'] + tail;
    lemma_peek(c, line + rest);
    lemma_ahead(c, line, rest);
    let d = c.skip(line.len() as int);
    assert forall|j: int| c.at <= j < d.at implies in_line()(#[trigger] c.text[j]) by {
        assert(c.text[c.at + (j - c.at)] == line[j - c.at]);
    }
    lemma_scan_is(c, in_line(), d);
    lemma_ahead(d, seq!['\n'], tail);
    assert(line[0] != '\n');
}

/// In a `default` neither a colon nor a bar can stand behind the paths, and both have
/// errors of their own.
pub proof fn law_default_ends_with_its_paths(
    c: Cursor,
    span: SpanView,
    ws: Seq<Seq<Part>>,
    line: Seq<char>,
    tail: Seq<char>,
)
    requires
        c.wf(),
        c.rest() == joined(ws) + (line + (seq!['\n'] + tail)),
        paths_ok(ws),
        line.len() > 0,
        line[0] == ':' || line[0] == '|',
        forall|i: int| 0 <= i < line.len() ==> #[trigger] line[i] != '\n',
    ensures
        ({
            let p = default_stmt(c, span);
            let at = paths(c).next;
            &&& words_are(p.value.outs, ws)
            &&& p.next.rest() == tail
            &&& p.errors.len() == 1
            &&& at.rest() == line + (seq!['\n'] + tail)
            &&& tells(
                p.errors[0],
                if line[0] == ':' {
                    "unexpected colon"@
                } else {
                    "unexpected pipe"@
                },
                at.to(at.skip(1)),
            )
        }),
{
    reveal(default_stmt);
    let after = line + (seq!['\n'] + tail);
    assert(after[0] == line[0]);
    lemma_list_cut(c, ws, after);
    law_rest_of_line_is_skipped(paths(c).next, true, true, line, tail);
}

/// In a `build` no second colon can stand behind the dependencies.
pub proof fn law_build_has_one_colon(
    c: Cursor,
    ws: Seq<Seq<Part>>,
    line: Seq<char>,
    tail: Seq<char>,
)
    requires
        c.wf(),
        c.rest() == joined(ws) + (line + (seq!['\n'] + tail)),
        paths_ok(ws),
        line.len() > 0,
        line[0] == ':',
        forall|i: int| 0 <= i < line.len() ==> #[trigger] line[i] != '\n',
    ensures
        ({
            let p = build_inputs(c);
            let at = paths(c).next;
            &&& words_are(p.value.deps, ws)
            &&& p.value.implicit_deps.len() == 0
            &&& p.value.order_only_deps.len() == 0
            &&& p.value.validations.len() == 0
            &&& p.next.rest() == tail
            &&& p.errors.len() == 1
            &&& tells(p.errors[0], "unexpected colon"@, at.to(at.skip(1)))
        }),
{
    reveal(build_inputs);
    reveal(section);
    reveal_strlit("|");
    reveal_strlit("||");
    reveal_strlit("|@");
    assert("|"@[0] == '|' && "||"@[0] == '|' && "|@"@[0] == '|');
    assert("|"@.len() == 1 && "||"@.len() == 2 && "|@"@.len() == 2);
    let after = line + (seq!['\n'] + tail);
    assert(after[0] == line[0]);
    lemma_list_cut(c, ws, after);
    let d = paths(c).next;
    lemma_sees_text(d, after, "|"@);
    lemma_sees_text(d, after, "||"@);
    lemma_sees_text(d, after, "|@"@);
    assert(after.take(1)[0] == ':');
    if after.len() >= 2 {
        assert(after.take(2)[0] == ':');
    }
    law_rest_of_line_is_skipped(d, true, false, line, tail);
}

// ----------------------------------------------------------------- build lines

/// A `build` that names nothing to build: a path is asked for.
pub proof fn law_output_is_asked_for(c: Cursor, k: nat, tail: Seq<char>)
    requires
        c.wf(),
        c.rest() == spaces(k) + (seq![':'] + tail),
    ensures
        asked_for(
            build_outputs(c).errors,
            "expected output path"@,
            c.skip(k as int).offset(),
            "<output-path>"@,
        ),
{
    reveal(build_outputs);
    reveal(expected_error);
    let none = Seq::<Seq<Part>>::empty();
    let after = seq![':'] + tail;
    assert(joined(none) + (spaces(k) + after) =~= spaces(k) + after);
    lemma_paths_list(c, none, k, after);
    lemma_white(c, k, after);
    lemma_first_sign(c.skip(k as int), after);
    let e = build_outputs(c).errors;
    assert(asks_for(
        e[0],
        "expected output path"@,
        c.skip(k as int).offset(),
        "<output-path>"@,
    ));
}

proof fn lemma_first_sign(d: Cursor, after: Seq<char>)
    requires
        ahead(d, after),
        after.len() > 0,
        after[0] != '|',
    ensures
        section(d, "|"@).value.len() == 0,
        section(d, "|"@).next == d,
        section(d, "|"@).errors.len() == 0,
{
    reveal(section);
    reveal_strlit("|");
    assert("|"@[0] == '|' && "|"@.len() == 1);
    lemma_sees_text(d, after, "|"@);
    assert(after.take(1)[0] == after[0]);
}

/// A `build` without a colon: one is asked for where the line ends.
pub proof fn law_colon_is_asked_for(c: Cursor, ws: Seq<Seq<Part>>, tail: Seq<char>)
    requires
        c.wf(),
        c.rest() == joined(ws) + (seq!['\n'] + tail),
        paths_ok(ws),
        ws.len() > 0,
    ensures
        asked_for(
            build_outputs(c).errors,
            "expected colon"@,
            paths(c).next.offset(),
            seq![':'],
        ),
        paths(c).next.rest() == seq!['\n'] + tail,
{
    reveal(build_outputs);
    reveal(expected_error);
    reveal_strlit(":");
    assert(":"@ =~= seq![':']);
    let after = seq!['\n'] + tail;
    lemma_list_cut(c, ws, after);
    let d = paths(c).next;
    lemma_peek(d, after);
    lemma_first_sign(d, after);
    let e = build_outputs(c).errors;
    assert(asks_for(e[0], "expected colon"@, d.offset(), seq![':']));
}

/// A `build` without a rule: one is asked for behind the colon.
pub proof fn law_rule_is_asked_for(c: Cursor, ws: Seq<Seq<Part>>, k: nat, tail: Seq<char>)
    requires
        c.wf(),
        c.rest() == joined(ws) + (seq![':'] + (spaces(k) + tail)),
        paths_ok(ws),
        ws.len() > 0,
        no_white(tail),
        tail.len() > 0 ==> !name_code(tail[0]),
    ensures
        ({
            let p = build_outputs(c);
            &&& p.next.rest() == tail
            &&& p.errors.len() == 1
            &&& asks_for(
                p.errors[0],
                "expected a rule name"@,
                p.next.offset(),
                "<rule_name>"@,
            )
        }),
{
    reveal(build_outputs);
    reveal(expected_error);
    let after = seq![':'] + (spaces(k) + tail);
    lemma_list_cut(c, ws, after);
    let d = paths(c).next;
    lemma_peek(d, after);
    lemma_first_sign(d, after);
    lemma_ahead(d, seq![':'], spaces(k) + tail);
    lemma_white(d.skip(1), k, tail);
    lemma_no_name(d.skip(1).skip(k as int), tail);
}

// ------------------------------------------------------------------------- for

/// A `for` without a variable: one is asked for.
pub proof fn law_variable_is_asked_for(c: Cursor, k: nat, tail: Seq<char>)
    requires
        c.wf(),
        c.rest() == spaces(k) + tail,
        no_white(tail),
        tail.len() > 0 ==> !name_code(tail[0]),
    ensures
        asked_for(
            for_header(c).errors,
            "expected a variable name"@,
            c.skip(k as int).offset(),
            " <var_name>"@,
        ),
{
    reveal(for_header);
    reveal(expected_error);
    lemma_white(c, k, tail);
    lemma_no_name(c.skip(k as int), tail);
    let e = for_header(c).errors;
    assert(asks_for(
        e[0],
        "expected a variable name"@,
        c.skip(k as int).offset(),
        " <var_name>"@,
    ));
}

/// A `for` without the word `in`: it is asked for behind the variable.
pub proof fn law_in_is_asked_for(c: Cursor, var: Seq<char>, k: nat, tail: Seq<char>)
    requires
        c.wf(),
        c.rest() == seq![' '] + var + (spaces(k) + tail),
        is_name(var),
        k > 0 || (tail.len() > 0 ==> !name_code(tail[0])),
        no_white(tail),
        !begins(tail, seq!['i', 'n']),
    ensures
        asked_for(
            for_header(c).errors,
            "expected 'in'"@,
            c.skip(1 + var.len() as int).skip(k as int).offset(),
            seq![' ', 'i', 'n'],
        ),
{
    reveal(for_header);
    reveal(expected_error);
    reveal_strlit("in");
    reveal_strlit(" in");
    assert("in"@ =~= seq!['i', 'n']);
    assert(" in"@ =~= seq![' ', 'i', 'n']);
    let after = spaces(k) + tail;
    assert(seq![' '] + var + after =~= spaces(1) + (var + after));
    assert(name_code(var[0]));
    lemma_white(c, 1, var + after);
    if k > 0 {
        assert(after[0] == ' ');
    } else {
        assert(after =~= tail);
    }
    lemma_name(c.skip(1), var, after);
    lemma_ahead(c.skip(1), var, after);
    let d = c.skip(1).skip(var.len() as int);
    assert(d == c.skip(1 + var.len() as int));
    lemma_white(d, k, tail);
    lemma_sees_text(d.skip(k as int), tail, "in"@);
    let e = for_header(c).errors;
    assert(asks_for(
        e[0],
        "expected 'in'"@,
        d.skip(k as int).offset(),
        seq![' ', 'i', 'n'],
    ));
}

// -------------------------------------------------------------------- bindings

/// The error says that the variable `name` at `span` cannot be bound.
pub open spec fn refuses(e: ErrorView, name: Seq<char>, span: SpanView) -> bool {
    &&& e.title == "unexpected variable '"@ + name + seq!['\'']
    &&& e.marks.len() == 2
    &&& e.marks[0].kind == AnnotationKind::Context
    &&& e.marks[1].kind == AnnotationKind::Primary
    &&& e.marks[1].span == span
    &&& e.edits is None
}

/// A rule binds just the variables that rules know, a pool its depth, and a `build` any:
/// all others are refused, behind all that is wrong with the line. A pool does not keep
/// them.
pub proof fn law_only_some_variables_are_bound(
    c: Cursor,
    kind: BlockKind,
    context: SpanView,
    name: Seq<char>,
    tail: Seq<char>,
)
    requires
        c.wf(),
        c.rest() == name + tail,
        is_name(name),
        tail.len() > 0 ==> !name_code(tail[0]),
    ensures
        ({
            let (p, kept) = binding(c, kind, context);
            let d = c.skip(name.len() as int);
            let known = match kind {
                BlockKind::Rule => rule_binds(name),
                BlockKind::Build => true,
                BlockKind::Pool => name == "depth"@,
            };
            let l = let_stmt(d, p.value.var);
            &&& p.value.var.name == name
            &&& p.value.var.span == c.to(d)
            &&& p.value == l.value
            &&& p.next == l.next
            &&& kept <==> known || kind == BlockKind::Rule
            &&& known ==> p.errors == l.errors
            &&& !known ==> {
                &&& p.errors.len() == l.errors.len() + 1
                &&& refuses(p.errors.last(), name, c.to(d))
                &&& p.errors.last().marks[0].span == context
                &&& p.errors.last().info == Some(
                    if kind == BlockKind::Pool {
                        "pools must have only a 'depth' variable binding"@
                    } else {
                        "rules may only bind certain variables"@
                    },
                )
            }
        }),
{
    reveal(binding);
    reveal(unexpected_variable_error);
    reveal_strlit("'");
    assert("'"@ =~= seq!['\'']);
    lemma_name(c, name, tail);
    lemma_ahead(c, name, tail);
    lemma_peek(c, name + tail);
    assert(name_code(name[0]));
    assert((name + tail)[0] == name[0]);
    let (var, d) = varname(c, false);
    let l = let_stmt(d, var);
    lemma_let_var(d, var);
    assert(l.errors + Seq::<ErrorView>::empty() =~= l.errors);
}

proof fn lemma_let_var(c: Cursor, var: VarnameView)
    ensures
        let_stmt(c, var).value.var == var,
{
    reveal(let_stmt);
}

/// A pool that binds nothing lacks its depth, and only such a pool does.
pub proof fn law_depth_is_asked_for(c: Cursor, n: int, span: SpanView)
    ensures
        ({
            let h = header(c, "expected a pool name"@, "<pool_name>"@);
            let s = pool_stmt(c, n, span);
            let b = block(h.next, BlockKind::Pool, n, span.join(h.value.span));
            let lacks = s.value.bindings.len() == 0;
            &&& s.errors.len() == h.errors.len() + b.errors.len() + (if lacks {
                1int
            } else {
                0
            })
            &&& lacks ==> {
                let e = s.errors.last();
                &&& e.title == "expected 'depth =' line"@
                &&& e.marks.len() == 2
                &&& e.marks[1].kind == AnnotationKind::Primary
                &&& e.marks[1].span == s.next.here()
                &&& e.edits is Some
                &&& e.edits->0.len() == 1
                &&& e.edits->0[0].span.start == s.filler.span.start
                &&& e.edits->0[0].span.end == s.filler.span.start
                &&& e.edits->0[0].replacement == "\n    depth = <number>"@
            }
        }),
{
    reveal(pool_stmt);
    reveal(missing_depth_error);
}

// ----------------------------------------------------------------- indentation

/// The first statement of a file may not be indented.
pub proof fn law_indent_is_unexpected(c: Cursor, g: Gap, k: nat, tail: Seq<char>)
    requires
        c.wf(),
        c.rest() == gap_text(g) + (spaces(k) + tail),
        remarks_ok(g.remarks),
        solid(tail),
        tail.len() > 0,
        k > 0,
    ensures
        ({
            let d = c.skip(gap_text(g).len() as int);
            told(file(c).errors, "unexpected indent"@, d.to(d.skip(k as int)))
        }),
{
    reveal(plain_error);
    lemma_gap(c, g, k, tail);
    let f = filler(c);
    let d = c.skip(gap_text(g).len() as int);
    lemma_ahead(c, gap_text(g), spaces(k) + tail);
    assert(f.next.rest().len() == d.rest().len());
    assert(f.next == d);
    lemma_white(d, k, tail);
    lemma_peek(d.skip(k as int), tail);
    let w = whitespace(f.next);
    let i = items(w.next, w.value);
    let e = file(c).errors;
    let m = (f.errors + w.errors).len() as int;
    assert(e[m] == i.errors[0]);
    assert(tells(i.errors[0], "unexpected indent"@, w.value));
    assert(tells(e[m], "unexpected indent"@, w.value));
}

// ----------------------------------------------------------------- white space

/// Of white space only spaces are in order: any other of its characters is an error, and
/// so is a carriage return without a line feed. What follows it is read as ever.
pub proof fn law_only_spaces_are_in_order(c: Cursor, k: nat, ch: char, tail: Seq<char>)
    requires
        c.wf(),
        c.rest() == spaces(k) + (seq![ch] + tail),
        white_code(ch),
        ch != ' ' && ch != '\n',
        ch == '\r' ==> tail.len() == 0 || tail[0] != '\n',
    ensures
        ({
            let d = c.skip(k as int);
            let w = whitespace(c);
            let rest = whitespace(d.skip(1));
            &&& d.skip(1).rest() == tail
            &&& w.next == rest.next
            &&& w.errors.len() == rest.errors.len() + 1
            &&& tells(
                w.errors[0],
                if ch == '\r' {
                    "naked carriage returns aren't supported"@
                } else {
                    "unsupported whitespace (only a plain space, ' ', is allowed)"@
                },
                d.to(d.skip(1)),
            )
            &&& w.errors.skip(1) == rest.errors
        }),
{
    reveal(whitespace);
    reveal(plain_error);
    let after = seq![ch] + tail;
    lemma_blanks_run(c, k, after);
    lemma_ahead(c, spaces(k), after);
    let d = c.skip(k as int);
    lemma_peek(d, after);
    lemma_ahead(d, seq![ch], tail);
    lemma_peek(d.skip(1), tail);
    lemma_white_char(ch);
    assert(whitespace(c).errors.skip(1) =~= whitespace(d.skip(1)).errors);
}

proof fn lemma_white_char(ch: char)
    ensures
        crate::text::white_space(ch) <==> white_code(ch),
        ch as u32 == 13 <==> ch == '\r',
{
}

} // verus!
