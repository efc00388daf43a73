//! The parser of statements.

use vstd::prelude::*;

use crate::ast::{EvalString, EvalStringView, Varname, VarnameView};
use crate::code::{CodeIter, Span, SpanView, Spanned};
use crate::error::{
    expected_error, missing_depth_error, new_missing_depth_error, new_parse_error,
    new_parse_error_expected, new_unexpected_variable_error, plain_error, ErrorView, ParseError,
};
use crate::grammar::{
    blanks, error_if, in_line, is_space, lemma_blanks, lemma_scan, lemma_scan_is, line_rules,
    path_rules, scan, varname, whitespace, EvalStrNewline, Parsed,
};
use crate::parse::{
    eat_whitespace, is_name_char, lemma_reported_if, lemma_reported_more, lemma_reported_none,
    moved, parse_eval_str, parse_varname, report, reported,
};
use crate::progress::{
    lemma_binding, lemma_blank_lines, lemma_comment, lemma_file, lemma_filler, lemma_for_header,
    lemma_for_word, lemma_item, lemma_path, lemma_varname, lemma_whitespace, lemma_with_filler,
};
use crate::stmt::{
    binding_views, body_views, comment_views, item_views, path_views, Binding, BindingView,
    BuildStmt, Comment, DefaultStmt, DefaultView, Filler, ForBodyItem, ForBodyItemView, ForStmt,
    Item, LetStmt, LetView, MexFile, PoolStmt, RuleStmt,
};
use crate::syntax::{
    at_comment, binding, blank_lines, block, build_inputs, build_outputs, build_stmt, comment,
    comments, default_stmt, file, filler, for_body, for_header, for_stmt, for_with_body, header,
    item, items, let_stmt, line_end, line_value, out_of_place_error, path, paths, paths_from,
    pool_stmt, reserved_binding, rule_stmt, section, simple_item, with_filler, BlockKind,
};
use crate::text::{lemma_offset_grows, same_text};

verus! {

/// Reads the rest of a line.
fn parse_line_value<'a>(code: &mut CodeIter<'a>, errors: &mut Vec<ParseError>) -> (r: EvalString<
    'a,
>)
    requires
        old(code).wf(),
    ensures
        ({
            let p = line_value(old(code)@);
            &&& moved(*old(code), *final(code), p.next)
            &&& reported(old(errors)@, final(errors)@, p.errors)
            &&& r@ == p.value
        }),
{
    proof {
        reveal(line_value);
    }
    let none: [char; 0] = [];
    let r = parse_eval_str(code, errors, &none, EvalStrNewline::Consume, false);
    proof {
        assert(none@ =~= line_rules().stop);
    }
    r
}

/// Reads a path.
fn parse_path<'a>(code: &mut CodeIter<'a>, errors: &mut Vec<ParseError>) -> (r: EvalString<'a>)
    requires
        old(code).wf(),
    ensures
        ({
            let p = path(old(code)@);
            &&& moved(*old(code), *final(code), p.next)
            &&& reported(old(errors)@, final(errors)@, p.errors)
            &&& r@ == p.value
        }),
{
    proof {
        reveal(path);
    }
    let stop = [' ', ':', '|'];
    let r = parse_eval_str(code, errors, &stop, EvalStrNewline::Stop, false);
    proof {
        assert(stop@ =~= path_rules().stop);
    }
    r
}

/// Reads paths.
pub fn parse_paths<'a>(code: &mut CodeIter<'a>, errors: &mut Vec<ParseError>) -> (r: Vec<
    EvalString<'a>,
>)
    requires
        old(code).wf(),
    ensures
        ({
            let p = paths(old(code)@);
            &&& moved(*old(code), *final(code), p.next)
            &&& reported(old(errors)@, final(errors)@, p.errors)
            &&& path_views(r@) == p.value
        }),
{
    let ghost first = errors@;
    let ghost c = code@;
    let mut found: Vec<EvalString<'a>> = Vec::new();
    proof {
        reveal(paths);
        lemma_whitespace(c);
    }
    eat_whitespace(code, Some(&mut *errors));
    let ghost start = code@;
    let ghost goal = paths_from(start);
    let ghost mut known = whitespace(c).errors;
    proof {
        assert(path_views(found@) + goal.value =~= goal.value);
    }
    loop
        invariant_except_break
            code.wf(),
            code.reads() == old(code).reads(),
            reported(first, errors@, known),
            goal.value == path_views(found@) + paths_from(code@).value,
            goal.next == paths_from(code@).next,
            whitespace(c).errors + goal.errors == known + paths_from(code@).errors,
        ensures
            moved(*old(code), *code, goal.next),
            reported(first, errors@, whitespace(c).errors + goal.errors),
            path_views(found@) == goal.value,
        decreases code@.left(),
    {
        let ghost from = code@;
        let ghost before = errors@;
        let ghost p = path(from);
        let ghost w = whitespace(p.next);
        let ghost rest = paths_from(w.next);
        proof {
            lemma_path(from);
            lemma_whitespace(p.next);
        }
        let one = parse_path(code, errors);
        let ghost mid = errors@;
        eat_whitespace(code, Some(&mut *errors));
        proof {
            lemma_reported_more(first, before, mid, known, p.errors);
            lemma_reported_more(first, mid, errors@, known + p.errors, w.errors);
            assert(known + p.errors + w.errors =~= known + (p.errors + w.errors));
        }
        if one.pieces.len() == 0 {
            proof {
                assert(path_views(found@) + seq![] =~= path_views(found@));
            }
            break;
        }
        let ghost had = path_views(found@);
        found.push(one);
        proof {
            assert(path_views(found@) =~= had + seq![p.value]);
            assert(had + (seq![p.value] + rest.value) =~= had + seq![p.value] + rest.value);
            assert(known + (p.errors + w.errors + rest.errors) =~= known + p.errors + w.errors
                + rest.errors);
            known = known + p.errors + w.errors;
        }
    }
    found
}

/// Reads paths behind `sign`, if it stands ahead.
fn parse_section<'a>(
    code: &mut CodeIter<'a>,
    errors: &mut Vec<ParseError>,
    sign: &str,
) -> (r: Vec<EvalString<'a>>)
    requires
        old(code).wf(),
    ensures
        ({
            let p = section(old(code)@, sign@);
            &&& moved(*old(code), *final(code), p.next)
            &&& reported(old(errors)@, final(errors)@, p.errors)
            &&& path_views(r@) == p.value
        }),
{
    proof {
        reveal(section);
        lemma_reported_none(errors@);
    }
    match code.take_str_matches(sign) {
        Some(_) => parse_paths(code, errors),
        None => {
            let r: Vec<EvalString<'a>> = Vec::new();
            proof {
                assert(path_views(r@) =~= seq![]);
            }
            r
        },
    }
}

fn take_spaces<'a>(code: &mut CodeIter<'a>)
    requires
        old(code).wf(),
    ensures
        moved(*old(code), *final(code), scan(old(code)@, is_space())),
{
    code.take_char_while(
        |ch: char| -> (b: bool)
            ensures b == is_space()(ch),
        { ch == ' ' });
    proof {
        lemma_scan_is(old(code)@, is_space(), code@);
    }
}

fn take_line<'a>(code: &mut CodeIter<'a>)
    requires
        old(code).wf(),
    ensures
        moved(*old(code), *final(code), scan(old(code)@, in_line())),
{
    code.take_char_while(
        |ch: char| -> (b: bool)
            ensures b == in_line()(ch),
        { ch != '\n' });
    proof {
        lemma_scan_is(old(code)@, in_line(), code@);
    }
}

/// Reads lines that hold nothing but spaces, and counts them.
fn take_blank_lines<'a>(code: &mut CodeIter<'a>) -> (n: u32)
    requires
        old(code).wf(),
    ensures
        ({
            let (count, next) = blank_lines(old(code)@);
            &&& moved(*old(code), *final(code), next)
            &&& n == count
        }),
{
    let ghost c = code@;
    let mut n: u32 = 0;
    proof {
        lemma_blank_lines(c);
        lemma_offset_grows(c.text, 0, c.text.len() as int);
    }
    loop
        invariant_except_break
            code.wf(),
            code.reads() == old(code).reads(),
            blank_lines(c).0 == n + blank_lines(code@).0,
            blank_lines(c).1 == blank_lines(code@).1,
            blank_lines(c).0 <= u32::MAX,
        ensures
            moved(*old(code), *code, blank_lines(c).1),
            n == blank_lines(c).0,
        decreases code@.left(),
    {
        let mut peek = code.clone();
        proof {
            lemma_scan(code@, is_space());
        }
        take_spaces(&mut peek);
        if !peek.take_newline() {
            break;
        }
        *code = peek;
        n += 1;
    }
    n
}

/// Reads a comment and the blank lines behind it.
fn parse_comment<'a>(code: &mut CodeIter<'a>, errors: &mut Vec<ParseError>) -> (r: Comment<'a>)
    requires
        old(code).wf(),
        at_comment(old(code)@),
    ensures
        ({
            let p = comment(old(code)@);
            &&& moved(*old(code), *final(code), p.next)
            &&& reported(old(errors)@, final(errors)@, p.errors)
            &&& r@ == p.value
        }),
{
    let ghost c = code@;
    let ghost first = errors@;
    let mut peek = code.clone();
    proof {
        lemma_comment(c);
        lemma_offset_grows(c.text, 0, c.text.len() as int);
        lemma_scan(c, is_space());
        lemma_scan(scan(c, is_space()).skip(1), in_line());
        lemma_reported_none(first);
    }
    take_spaces(&mut peek);
    peek.next_char();
    take_line(&mut peek);
    proof {
        assert(c.reaches(peek@));
        code.lemma_until(peek);
    }
    let text = code.as_str_until(peek.pos());
    let text_span = peek.up_to(code);
    *code = peek;
    if !code.take_newline() {
        report(errors, new_parse_error_expected("expected newline", "\n", &*code, "here"));
    }
    let more = take_blank_lines(code);
    Comment { text_span, text, post_newlines: 1 + more }
}

/// Reads blank lines and comments.
pub fn parse_filler<'a>(code: &mut CodeIter<'a>, errors: &mut Vec<ParseError>) -> (r: Filler<'a>)
    requires
        old(code).wf(),
    ensures
        ({
            let p = filler(old(code)@);
            &&& moved(*old(code), *final(code), p.next)
            &&& reported(old(errors)@, final(errors)@, p.errors)
            &&& r@ == p.value
        }),
{
    let ghost first = errors@;
    let start = code.clone();
    proof {
        reveal(filler);
        lemma_reported_none(first);
        lemma_blank_lines(start@);
    }
    let start_newlines = take_blank_lines(code);
    let mut found: Vec<Comment<'a>> = Vec::new();
    let ghost goal = comments(code@);
    let ghost mut known: Seq<ErrorView> = seq![];
    proof {
        assert(comment_views(found@) + goal.value =~= goal.value);
        assert(known + goal.errors =~= goal.errors);
    }
    loop
        invariant_except_break
            code.wf(),
            start.wf(),
            code.reads() == start.reads(),
            reported(first, errors@, known),
            goal.value == comment_views(found@) + comments(code@).value,
            goal.next == comments(code@).next,
            goal.errors == known + comments(code@).errors,
        ensures
            start.wf(),
            moved(start, *code, goal.next),
            reported(first, errors@, goal.errors),
            comment_views(found@) == goal.value,
        decreases code@.left(),
    {
        let ghost from = code@;
        let ghost before = errors@;
        let mut peek = code.clone();
        take_spaces(&mut peek);
        if peek.peek() != Some('#') {
            proof {
                assert(comment_views(found@) + seq![] =~= comment_views(found@));
                assert(known + seq![] =~= known);
            }
            break;
        }
        proof {
            lemma_comment(from);
        }
        let one = parse_comment(code, errors);
        let ghost had = comment_views(found@);
        let ghost k = comment(from);
        found.push(one);
        proof {
            let rest = comments(k.next);
            lemma_reported_more(first, before, errors@, known, k.errors);
            assert(comment_views(found@) =~= had + seq![k.value]);
            assert(had + (seq![k.value] + rest.value) =~= had + seq![k.value] + rest.value);
            assert(known + (k.errors + rest.errors) =~= known + k.errors + rest.errors);
            known = known + k.errors;
        }
    }
    Filler { span: start.up_to(code), start_newlines, comments: found }
}

/// Reads the end of a line. A colon or a pipe has an error of its own where `colon` or
/// `pipe` says so.
fn end_line<'a>(code: &mut CodeIter<'a>, errors: &mut Vec<ParseError>, colon: bool, pipe: bool)
    requires
        old(code).wf(),
    ensures
        ({
            let p = line_end(old(code)@, colon, pipe);
            &&& moved(*old(code), *final(code), p.next)
            &&& reported(old(errors)@, final(errors)@, p.errors)
        }),
{
    proof {
        reveal(line_end);
        lemma_reported_none(errors@);
    }
    if !code.take_newline() {
        let mut peek = code.clone();
        let e = match peek.next_char() {
            Some(':') if colon => new_parse_error("unexpected colon", &code.up_to(&peek), "here"),
            Some('|') if pipe => new_parse_error("unexpected pipe", &code.up_to(&peek), "here"),
            _ => new_parse_error_expected("expected newline", "\n", &*code, "here"),
        };
        report(errors, e);
        take_line(code);
        code.take_newline();
    }
}

/// Reads what follows the name `var`.
pub fn parse_let<'a>(
    code: &mut CodeIter<'a>,
    errors: &mut Vec<ParseError>,
    var: Varname<'a>,
) -> (r: LetStmt<'a>)
    requires
        old(code).wf(),
    ensures
        ({
            let p = let_stmt(old(code)@, var@);
            &&& moved(*old(code), *final(code), p.next)
            &&& reported(old(errors)@, final(errors)@, p.errors)
            &&& r@ == p.value
        }),
{
    let ghost first = errors@;
    let ghost c = code@;
    let ghost w = whitespace(c);
    let ghost mut known: Seq<ErrorView> = seq![];
    proof {
        reveal(let_stmt);
    }
    if var.is_valid() {
        eat_whitespace(code, Some(&mut *errors));
        let ghost mid = errors@;
        let signed = code.take_char_matches('=');
        if !signed {
            report(
                errors,
                new_parse_error_expected("expected assignment operator '='", " = ", &*code, "here"),
            );
        }
        proof {
            let e = expected_error(
                "expected assignment operator '='"@,
                " = "@,
                w.next.here(),
                "here"@,
            );
            lemma_reported_if(first, mid, errors@, w.errors, !signed, e);
            known = w.errors + error_if(!signed, e);
        }
    } else {
        report(
            errors,
            new_parse_error_expected(
                "expected a variable name",
                "<variable_name> = ",
                &*code,
                "here",
            ),
        );
        proof {
            known = seq![
                expected_error(
                    "expected a variable name"@,
                    "<variable_name> = "@,
                    c.here(),
                    "here"@,
                ),
            ];
        }
    }
    let ghost d = code@;
    let ghost mid = errors@;
    proof {
        lemma_blanks(d);
    }
    eat_whitespace(code, None);
    let value = parse_line_value(code, errors);
    proof {
        lemma_reported_more(first, mid, errors@, known, line_value(blanks(d)).errors);
    }
    LetStmt { var, value }
}

/// Reads a name and the end of the line.
fn parse_header<'a>(
    code: &mut CodeIter<'a>,
    errors: &mut Vec<ParseError>,
    title: &str,
    expected: &'static str,
) -> (r: Varname<'a>)
    requires
        old(code).wf(),
    ensures
        ({
            let p = header(old(code)@, title@, expected@);
            &&& moved(*old(code), *final(code), p.next)
            &&& reported(old(errors)@, final(errors)@, p.errors)
            &&& r@ == p.value
        }),
{
    let ghost first = errors@;
    let ghost c = code@;
    let ghost w = whitespace(c);
    proof {
        reveal(header);
    }
    eat_whitespace(code, Some(&mut *errors));
    let name = parse_varname(code, false);
    let ghost d = code@;
    let ghost mid = errors@;
    let valid = name.is_valid();
    if !valid {
        report(errors, new_parse_error_expected(title, expected, &*code, "here"));
    }
    let ghost e = expected_error(title@, expected@, d.here(), "here"@);
    proof {
        lemma_reported_if(first, mid, errors@, w.errors, !valid, e);
    }
    let ghost known = w.errors + error_if(!valid, e);
    let ghost mid = errors@;
    eat_whitespace(code, Some(&mut *errors));
    let ghost w2 = whitespace(d);
    proof {
        lemma_reported_more(first, mid, errors@, known, w2.errors);
    }
    let ghost known = known + w2.errors;
    let ghost mid = errors@;
    end_line(code, errors, false, false);
    proof {
        lemma_reported_more(
            first,
            mid,
            errors@,
            known,
            line_end(w2.next, false, false).errors,
        );
    }
    name
}

/// Whether a rule may bind `var`.
pub fn is_reserved_binding(var: &str) -> (yes: bool)
    ensures
        yes == reserved_binding(var@),
{
    same_text(var, "command") || same_text(var, "depfile") || same_text(var, "dyndep") || same_text(
        var,
        "description",
    ) || same_text(var, "deps") || same_text(var, "generator") || same_text(var, "pool")
        || same_text(var, "restat") || same_text(var, "rspfile") || same_text(
        var,
        "rspfile_content",
    ) || same_text(var, "msvc_deps_prefix")
}

/// Reads a binding, and tells whether the statement keeps it.
fn parse_binding<'a>(
    code: &mut CodeIter<'a>,
    errors: &mut Vec<ParseError>,
    kind: BlockKind,
    while_parsing: Span,
) -> (r: (LetStmt<'a>, bool))
    requires
        old(code).wf(),
    ensures
        ({
            let (p, kept) = binding(old(code)@, kind, while_parsing@);
            &&& moved(*old(code), *final(code), p.next)
            &&& reported(old(errors)@, final(errors)@, p.errors)
            &&& r.0@ == p.value
            &&& r.1 == kept
        }),
{
    let ghost first = errors@;
    let ghost c = code@;
    proof {
        reveal(binding);
    }
    let sign = code.peek();
    if kind == BlockKind::Rule && (sign == Some('@') || sign == Some('!')) {
        let name_start = code.clone();
        code.next_char();
        proof {
            assert(c.reaches(code@));
            name_start.lemma_until(*code);
        }
        let var = Varname {
            span: name_start.up_to(code),
            name: name_start.as_str_until(code.pos()),
        };
        let value = parse_line_value(code, errors);
        return (LetStmt { var, value }, true);
    }
    let var = parse_varname(code, false);
    let ghost (name, d) = varname(c, false);
    proof {
        lemma_varname(c, false);
    }
    let stmt = parse_let(code, errors, var);
    let ghost l = let_stmt(d, name);
    proof {
        assert(l.value.var == name) by {
            reveal(let_stmt);
        }
    }
    let odd = stmt.var.is_valid() && match kind {
        BlockKind::Rule => !is_reserved_binding(stmt.var.as_str()),
        BlockKind::Build => false,
        BlockKind::Pool => !same_text(stmt.var.as_str(), "depth"),
    };
    let ghost mid = errors@;
    if odd {
        let why = match kind {
            BlockKind::Pool => "pools must have only a 'depth' variable binding",
            _ => "rules may only bind certain variables",
        };
        report(
            errors,
            new_unexpected_variable_error(
                stmt.var.as_str(),
                &while_parsing,
                &stmt.var.span(),
                why,
            ),
        );
    }
    proof {
        lemma_reported_if(
            first,
            mid,
            errors@,
            l.errors,
            odd,
            out_of_place_error(kind, name, while_parsing@),
        );
    }
    let kept = !(odd && kind == BlockKind::Pool);
    (stmt, kept)
}

/// Reads the lines that are indented by more than `base`.
fn parse_block<'a>(
    code: &mut CodeIter<'a>,
    errors: &mut Vec<ParseError>,
    kind: BlockKind,
    base: usize,
    while_parsing: Span,
) -> (r: (Vec<(Filler<'a>, Binding<'a>)>, Filler<'a>, Span))
    requires
        old(code).wf(),
    ensures
        ({
            let b = block(old(code)@, kind, base as int, while_parsing@);
            &&& moved(*old(code), *final(code), b.next)
            &&& reported(old(errors)@, final(errors)@, b.errors)
            &&& binding_views(r.0@) == b.bindings
            &&& r.1@ == b.filler
            &&& r.2@ == b.indent
        }),
{
    let ghost first = errors@;
    let ghost goal = block(code@, kind, base as int, while_parsing@);
    let ghost mut known: Seq<ErrorView> = seq![];
    let mut bindings: Vec<(Filler<'a>, Binding<'a>)> = Vec::new();
    proof {
        lemma_reported_none(first);
        assert(binding_views(bindings@) + goal.bindings =~= goal.bindings);
        assert(known + goal.errors =~= goal.errors);
    }
    loop
        invariant
            code.wf(),
            code.reads() == old(code).reads(),
            reported(first, errors@, known),
            ({
                let b = block(code@, kind, base as int, while_parsing@);
                &&& goal.bindings == binding_views(bindings@) + b.bindings
                &&& goal.filler == b.filler
                &&& goal.indent == b.indent
                &&& goal.next == b.next
                &&& goal.errors == known + b.errors
            }),
            first == old(errors)@,
            goal == block(old(code)@, kind, base as int, while_parsing@),
        decreases code@.left(),
    {
        let ghost c = code@;
        let ghost f = filler(c);
        let ghost w = whitespace(f.next);
        let ghost e0 = errors@;
        proof {
            lemma_filler(c);
            lemma_whitespace(f.next);
            lemma_binding(w.next, kind, while_parsing@);
        }
        let filler = parse_filler(code, errors);
        let ghost e1 = errors@;
        let indent_span = eat_whitespace(code, Some(&mut *errors));
        let ghost e2 = errors@;
        proof {
            lemma_reported_more(first, e0, e1, known, f.errors);
            lemma_reported_more(first, e1, e2, known + f.errors, w.errors);
        }
        if indent_span.len() <= base {
            proof {
                assert(known + f.errors + w.errors =~= known + (f.errors + w.errors));
                assert(binding_views(bindings@) + seq![] =~= binding_views(bindings@));
            }
            return (bindings, filler, indent_span);
        }
        let ghost (b, keeps) = binding(w.next, kind, while_parsing@);
        let ghost had = binding_views(bindings@);
        let (let_stmt, kept) = parse_binding(code, errors, kind, while_parsing);
        let ghost head = if keeps {
            seq![(f.value, BindingView { indent_span: w.value, let_stmt: b.value })]
        } else {
            seq![]
        };
        if kept {
            bindings.push((filler, Binding { indent_span, let_stmt }));
        }
        proof {
            let rest = block(b.next, kind, base as int, while_parsing@);
            lemma_reported_more(first, e2, errors@, known + f.errors + w.errors, b.errors);
            assert(binding_views(bindings@) =~= had + head);
            assert(had + (head + rest.bindings) =~= had + head + rest.bindings);
            assert(known + (f.errors + w.errors + b.errors + rest.errors) =~= known + f.errors
                + w.errors + b.errors + rest.errors);
            known = known + f.errors + w.errors + b.errors;
        }
    }
}

/// Reads what follows the word `rule`, which stands at `rule_span`: its bindings are
/// indented by more than `base_indent`. Gives also the filler behind the statement, and
/// the indentation of the next one.
pub fn parse_rule<'a>(
    code: &mut CodeIter<'a>,
    errors: &mut Vec<ParseError>,
    base_indent: Span,
    rule_span: Span,
) -> (r: (RuleStmt<'a>, Filler<'a>, Span))
    requires
        old(code).wf(),
        base_indent@.forward(),
    ensures
        ({
            let s = rule_stmt(old(code)@, base_indent@.len(), rule_span@);
            &&& moved(*old(code), *final(code), s.next)
            &&& reported(old(errors)@, final(errors)@, s.errors)
            &&& r.0@ == s.value
            &&& r.1@ == s.filler
            &&& r.2@ == s.indent
        }),
{
    let ghost first = errors@;
    let ghost c = code@;
    proof {
        reveal(rule_stmt);
    }
    let name = parse_header(code, errors, "expected a rule name", " <rule_name>");
    let ghost mid = errors@;
    let ghost h = header(c, "expected a rule name"@, " <rule_name>"@);
    let while_parsing = rule_span.join(name.span());
    let (bindings, filler, indent_span) = parse_block(
        code,
        errors,
        BlockKind::Rule,
        base_indent.len(),
        while_parsing,
    );
    proof {
        let b = block(h.next, BlockKind::Rule, base_indent@.len(), while_parsing@);
        lemma_reported_more(first, mid, errors@, h.errors, b.errors);
    }
    (RuleStmt { rule_span, name, bindings }, filler, indent_span)
}

/// Reads what follows the word `pool`, which stands at `pool_span`: its bindings are
/// indented by more than `base_indent`. Gives also the filler behind the statement, and
/// the indentation of the next one.
pub fn parse_pool<'a>(
    code: &mut CodeIter<'a>,
    errors: &mut Vec<ParseError>,
    base_indent: Span,
    pool_span: Span,
) -> (r: (PoolStmt<'a>, Filler<'a>, Span))
    requires
        old(code).wf(),
        base_indent@.forward(),
    ensures
        ({
            let s = pool_stmt(old(code)@, base_indent@.len(), pool_span@);
            &&& moved(*old(code), *final(code), s.next)
            &&& reported(old(errors)@, final(errors)@, s.errors)
            &&& r.0@ == s.value
            &&& r.1@ == s.filler
            &&& r.2@ == s.indent
        }),
{
    let ghost first = errors@;
    let ghost c = code@;
    proof {
        reveal(pool_stmt);
    }
    let name = parse_header(code, errors, "expected a pool name", "<pool_name>");
    let ghost mid = errors@;
    let ghost h = header(c, "expected a pool name"@, "<pool_name>"@);
    let while_parsing = pool_span.join(name.span());
    let (bindings, filler, indent_span) = parse_block(
        code,
        errors,
        BlockKind::Pool,
        base_indent.len(),
        while_parsing,
    );
    let ghost b = block(h.next, BlockKind::Pool, base_indent@.len(), while_parsing@);
    proof {
        lemma_reported_more(first, mid, errors@, h.errors, b.errors);
    }
    let ghost mid = errors@;
    let depth_defined = bindings.len() > 0;
    if !depth_defined {
        report(
            errors,
            new_missing_depth_error(&while_parsing, &*code, &filler.span.start()),
        );
    }
    proof {
        let insert = SpanView { start: b.filler.span.start, end: b.filler.span.start };
        lemma_reported_if(
            first,
            mid,
            errors@,
            h.errors + b.errors,
            !depth_defined,
            missing_depth_error(while_parsing@, b.next.here(), insert),
        );
    }
    (PoolStmt { pool_span, name, bindings }, filler, indent_span)
}

/// Reads the paths that a `build` line builds, and the rule.
fn parse_build_outputs<'a>(code: &mut CodeIter<'a>, errors: &mut Vec<ParseError>) -> (r: (
    Vec<EvalString<'a>>,
    Vec<EvalString<'a>>,
    Varname<'a>,
))
    requires
        old(code).wf(),
    ensures
        ({
            let p = build_outputs(old(code)@);
            &&& moved(*old(code), *final(code), p.next)
            &&& reported(old(errors)@, final(errors)@, p.errors)
            &&& path_views(r.0@) == p.value.0
            &&& path_views(r.1@) == p.value.1
            &&& r.2@ == p.value.2
        }),
{
    let ghost first = errors@;
    let ghost c = code@;
    proof {
        reveal(build_outputs);
    }
    let outs = parse_paths(code, errors);
    let ghost mid = errors@;
    let ghost p0 = paths(c);
    let implicit_outs = parse_section(code, errors, "|");
    let ghost p1 = section(p0.next, "|"@);
    let ghost d = code@;
    proof {
        lemma_reported_more(first, mid, errors@, p0.errors, p1.errors);
    }
    let ghost known = p0.errors + p1.errors;
    let ghost mid = errors@;
    let bare = outs.len() == 0 && implicit_outs.len() == 0;
    if bare {
        report(
            errors,
            new_parse_error_expected("expected output path", "<output-path>", &*code, "here"),
        );
    }
    let ghost e = expected_error("expected output path"@, "<output-path>"@, d.here(), "here"@);
    proof {
        lemma_reported_if(first, mid, errors@, known, bare, e);
    }
    let ghost known = known + error_if(bare, e);
    let ghost mid = errors@;
    let parted = code.take_char_matches(':');
    if !parted {
        report(errors, new_parse_error_expected("expected colon", ":", &*code, "here"));
    }
    let ghost e = expected_error("expected colon"@, ":"@, d.here(), "here"@);
    proof {
        lemma_reported_if(first, mid, errors@, known, !parted, e);
    }
    let ghost known = known + error_if(!parted, e);
    let ghost mid = errors@;
    let ghost w = whitespace(code@);
    eat_whitespace(code, Some(&mut *errors));
    proof {
        lemma_reported_more(first, mid, errors@, known, w.errors);
    }
    let ghost known = known + w.errors;
    let ghost mid = errors@;
    let rule = parse_varname(code, false);
    let valid = rule.is_valid();
    if !valid {
        report(
            errors,
            new_parse_error_expected("expected a rule name", "<rule_name>", &*code, "here"),
        );
    }
    let ghost e = expected_error("expected a rule name"@, "<rule_name>"@, code@.here(), "here"@);
    proof {
        lemma_reported_if(first, mid, errors@, known, !valid, e);
    }
    (outs, implicit_outs, rule)
}

/// Reads what a `build` line names behind its rule: the dependencies, the implicit ones,
/// those that only order the work, and the validations.
fn parse_build_inputs<'a>(code: &mut CodeIter<'a>, errors: &mut Vec<ParseError>) -> (r: (
    Vec<EvalString<'a>>,
    Vec<EvalString<'a>>,
    Vec<EvalString<'a>>,
    Vec<EvalString<'a>>,
))
    requires
        old(code).wf(),
    ensures
        ({
            let p = build_inputs(old(code)@);
            &&& moved(*old(code), *final(code), p.next)
            &&& reported(old(errors)@, final(errors)@, p.errors)
            &&& path_views(r.0@) == p.value.deps
            &&& path_views(r.1@) == p.value.implicit_deps
            &&& path_views(r.2@) == p.value.order_only_deps
            &&& path_views(r.3@) == p.value.validations
        }),
{
    let ghost first = errors@;
    let ghost c = code@;
    proof {
        reveal(build_inputs);
    }
    let deps = parse_paths(code, errors);
    let ghost e0 = errors@;
    let ghost p0 = paths(c);
    let implicit_deps = parse_section(code, errors, "|");
    let ghost e1 = errors@;
    let ghost p1 = section(p0.next, "|"@);
    let order_only_deps = parse_section(code, errors, "||");
    let ghost e2 = errors@;
    let ghost p2 = section(p1.next, "||"@);
    let validations = parse_section(code, errors, "|@");
    let ghost e3 = errors@;
    let ghost p3 = section(p2.next, "|@"@);
    end_line(code, errors, true, false);
    proof {
        let end = line_end(p3.next, true, false);
        lemma_reported_more(first, e0, e1, p0.errors, p1.errors);
        lemma_reported_more(first, e1, e2, p0.errors + p1.errors, p2.errors);
        lemma_reported_more(first, e2, e3, p0.errors + p1.errors + p2.errors, p3.errors);
        lemma_reported_more(
            first,
            e3,
            errors@,
            p0.errors + p1.errors + p2.errors + p3.errors,
            end.errors,
        );
    }
    (deps, implicit_deps, order_only_deps, validations)
}

/// Reads what follows the word `build`, which stands at `build_span`: its bindings are
/// indented by more than `base_indent`. Gives also the filler behind the statement, and
/// the indentation of the next one.
pub fn parse_build<'a>(
    code: &mut CodeIter<'a>,
    errors: &mut Vec<ParseError>,
    base_indent: Span,
    build_span: Span,
) -> (r: (BuildStmt<'a>, Filler<'a>, Span))
    requires
        old(code).wf(),
        base_indent@.forward(),
    ensures
        ({
            let s = build_stmt(old(code)@, base_indent@.len(), build_span@);
            &&& moved(*old(code), *final(code), s.next)
            &&& reported(old(errors)@, final(errors)@, s.errors)
            &&& r.0@ == s.value
            &&& r.1@ == s.filler
            &&& r.2@ == s.indent
        }),
{
    let ghost first = errors@;
    let ghost c = code@;
    proof {
        reveal(build_stmt);
    }
    let (outs, implicit_outs, rule) = parse_build_outputs(code, errors);
    let ghost e0 = errors@;
    let ghost o = build_outputs(c);
    let (deps, implicit_deps, order_only_deps, validations) = parse_build_inputs(code, errors);
    let ghost e1 = errors@;
    let ghost i = build_inputs(o.next);
    let (bindings, filler, indent_span) = parse_block(
        code,
        errors,
        BlockKind::Build,
        base_indent.len(),
        build_span,
    );
    proof {
        let b = block(i.next, BlockKind::Build, base_indent@.len(), build_span@);
        lemma_reported_more(first, e0, e1, o.errors, i.errors);
        lemma_reported_more(first, e1, errors@, o.errors + i.errors, b.errors);
    }
    let stmt = BuildStmt {
        build_span,
        outs,
        implicit_outs,
        rule,
        deps,
        implicit_deps,
        order_only_deps,
        validations,
        bindings,
    };
    (stmt, filler, indent_span)
}

/// Reads what follows the word `default`, which stands at `default_span`.
pub fn parse_default<'a>(
    code: &mut CodeIter<'a>,
    errors: &mut Vec<ParseError>,
    default_span: Span,
) -> (r: DefaultStmt<'a>)
    requires
        old(code).wf(),
    ensures
        ({
            let p = default_stmt(old(code)@, default_span@);
            &&& moved(*old(code), *final(code), p.next)
            &&& reported(old(errors)@, final(errors)@, p.errors)
            &&& r@ == p.value
        }),
{
    let ghost first = errors@;
    let ghost c = code@;
    proof {
        reveal(default_stmt);
    }
    let outs = parse_paths(code, errors);
    let ghost mid = errors@;
    let ghost p = paths(c);
    end_line(code, errors, true, true);
    proof {
        lemma_reported_more(first, mid, errors@, p.errors, line_end(p.next, true, true).errors);
    }
    DefaultStmt { default_span, outs }
}

/// Reads the filler behind a statement of one line, and the indentation of the next
/// statement.
fn parse_behind<'a, T>(
    code: &mut CodeIter<'a>,
    errors: &mut Vec<ParseError>,
    Ghost(first): Ghost<Seq<ParseError>>,
    Ghost(p): Ghost<Parsed<T>>,
) -> (r: (Filler<'a>, Span))
    requires
        old(code).wf(),
        old(code)@ == p.next,
        reported(first, old(errors)@, p.errors),
    ensures
        ({
            let s = with_filler(p);
            &&& moved(*old(code), *final(code), s.next)
            &&& reported(first, final(errors)@, s.errors)
            &&& r.0@ == s.filler
            &&& r.1@ == s.indent
        }),
{
    let ghost e0 = errors@;
    let behind = parse_filler(code, errors);
    let ghost e1 = errors@;
    let ghost f = filler(p.next);
    let indent_span = eat_whitespace(code, Some(&mut *errors));
    proof {
        lemma_reported_more(first, e0, e1, p.errors, f.errors);
        lemma_reported_more(first, e1, errors@, p.errors + f.errors, whitespace(f.next).errors);
    }
    (behind, indent_span)
}

/// Reads the line of a `for`, behind that word.
fn parse_for_header<'a>(code: &mut CodeIter<'a>, errors: &mut Vec<ParseError>) -> (r: (
    Varname<'a>,
    EvalString<'a>,
))
    requires
        old(code).wf(),
    ensures
        ({
            let p = for_header(old(code)@);
            &&& moved(*old(code), *final(code), p.next)
            &&& reported(old(errors)@, final(errors)@, p.errors)
            &&& r.0@ == p.value.0
            &&& r.1@ == p.value.1
        }),
{
    let ghost first = errors@;
    let ghost w = whitespace(code@);
    proof {
        reveal(for_header);
    }
    eat_whitespace(code, Some(&mut *errors));
    let ghost mid = errors@;
    let var = parse_varname(code, false);
    let ghost d = code@;
    let valid = var.is_valid();
    if !valid {
        report(
            errors,
            new_parse_error_expected("expected a variable name", " <var_name>", &*code, "here"),
        );
    }
    let ghost e = expected_error("expected a variable name"@, " <var_name>"@, d.here(), "here"@);
    proof {
        lemma_reported_if(first, mid, errors@, w.errors, !valid, e);
    }
    let ghost known = w.errors + error_if(!valid, e);
    let ghost mid = errors@;
    let ghost w2 = whitespace(d);
    eat_whitespace(code, Some(&mut *errors));
    proof {
        lemma_reported_more(first, mid, errors@, known, w2.errors);
    }
    let ghost known = known + w2.errors;
    let ghost mid = errors@;
    let worded = code.take_str_matches("in").is_some();
    if !worded {
        report(errors, new_parse_error_expected("expected 'in'", " in", &*code, "here"));
    }
    let ghost e = expected_error("expected 'in'"@, " in"@, w2.next.here(), "here"@);
    proof {
        lemma_reported_if(first, mid, errors@, known, !worded, e);
    }
    let ghost known = known + error_if(!worded, e);
    let ghost mid = errors@;
    let ghost w3 = whitespace(code@);
    eat_whitespace(code, Some(&mut *errors));
    proof {
        lemma_reported_more(first, mid, errors@, known, w3.errors);
    }
    let ghost known = known + w3.errors;
    let ghost mid = errors@;
    let plain = match code.peek() {
        Some(ch) => is_name_char(ch, false),
        None => false,
    };
    if !plain {
        report(errors, new_parse_error_expected("expected a space ' '", " ", &*code, "here"));
    }
    let ghost e = expected_error("expected a space ' '"@, " "@, w3.next.here(), "here"@);
    proof {
        lemma_reported_if(first, mid, errors@, known, !plain, e);
    }
    let ghost known = known + error_if(!plain, e);
    let ghost mid = errors@;
    let values = parse_line_value(code, errors);
    proof {
        lemma_reported_more(first, mid, errors@, known, line_value(w3.next).errors);
    }
    (var, values)
}

/// Reads what follows the word `for`, which stands at `for_span`: the statements of its
/// body are indented by more than `base_indent`. Gives also the filler behind the
/// statement, and the indentation of the next one.
pub fn parse_for<'a>(
    code: &mut CodeIter<'a>,
    errors: &mut Vec<ParseError>,
    base_indent: Span,
    for_span: Span,
) -> (r: (ForStmt<'a>, Filler<'a>, Span))
    requires
        old(code).wf(),
        base_indent@.forward(),
    ensures
        ({
            let s = for_stmt(old(code)@, base_indent@.len(), for_span@);
            &&& moved(*old(code), *final(code), s.next)
            &&& reported(old(errors)@, final(errors)@, s.errors)
            &&& r.0@ == s.value
            &&& r.1@ == s.filler
            &&& r.2@ == s.indent
        }),
    decreases old(code)@.left(), 2nat,
{
    let ghost first = errors@;
    let ghost c = code@;
    let ghost base = base_indent@.len();
    let ghost p = for_header(c);
    let ghost h = with_filler(p);
    proof {
        lemma_for_header(c);
        lemma_with_filler(p);
    }
    let (var, values) = parse_for_header(code, errors);
    let (behind, indent) = parse_behind::<(VarnameView, EvalStringView)>(
        code,
        errors,
        Ghost(first),
        Ghost(p),
    );
    let mut filler = behind;
    let mut indent_span = indent;
    let mut items: Vec<ForBodyItem<'a>> = Vec::new();
    let ghost goal = for_body(h.next, base, h.filler, h.indent);
    let ghost mut known = h.errors;
    proof {
        assert(body_views(items@) + goal.value =~= goal.value);
    }
    loop
        invariant
            old(code).wf(),
            code.wf(),
            code.reads() == old(code).reads(),
            old(code)@.reaches(code@),
            base_indent@.forward(),
            base == base_indent@.len(),
            indent_span@.forward(),
            reported(first, errors@, known),
            first == old(errors)@,
            for_stmt(old(code)@, base, for_span@) == for_with_body(h, for_span@, goal),
            h.value == (var@, values@),
            ({
                let b = for_body(code@, base, filler@, indent_span@);
                &&& goal.value == body_views(items@) + b.value
                &&& goal.filler == b.filler
                &&& goal.indent == b.indent
                &&& goal.next == b.next
                &&& h.errors + goal.errors == known + b.errors
            }),
        decreases
            code@.left() + (if indent_span@.len() <= base {
                0nat
            } else {
                1nat
            }),
    {
        if indent_span.len() <= base_indent.len() {
            proof {
                assert(body_views(items@) + seq![] =~= body_views(items@));
                assert(known + seq![] =~= known);
            }
            return (ForStmt { for_span, var, values, items }, filler, indent_span);
        }
        let ghost from = code@;
        let ghost mid = errors@;
        let ghost had = body_views(items@);
        let ghost i = item(from, indent_span@.len());
        let ghost head = ForBodyItemView {
            filler: filler@,
            indent_span: indent_span@,
            item: i.value,
        };
        proof {
            lemma_item(from, indent_span@.len());
        }
        let (item, post_filler, post_indent) = parse_item(code, errors, indent_span);
        items.push(ForBodyItem { filler, indent_span, item });
        filler = post_filler;
        indent_span = post_indent;
        proof {
            let rest = for_body(i.next, base, i.filler, i.indent);
            lemma_reported_more(first, mid, errors@, known, i.errors);
            assert(body_views(items@) =~= had + seq![head]);
            assert(had + (seq![head] + rest.value) =~= had + seq![head] + rest.value);
            assert(known + (i.errors + rest.errors) =~= known + i.errors + rest.errors);
            known = known + i.errors;
        }
    }
}

/// Reads a statement that is indented by `indent`. Gives also the filler behind it, and
/// the indentation of the next one.
pub fn parse_item<'a>(
    code: &mut CodeIter<'a>,
    errors: &mut Vec<ParseError>,
    indent: Span,
) -> (r: (Item<'a>, Filler<'a>, Span))
    requires
        old(code).wf(),
        indent@.forward(),
    ensures
        ({
            let s = item(old(code)@, indent@.len());
            &&& moved(*old(code), *final(code), s.next)
            &&& reported(old(errors)@, final(errors)@, s.errors)
            &&& r.0@ == s.value
            &&& r.1@ == s.filler
            &&& r.2@ == s.indent
        }),
    decreases old(code)@.left(), 0nat,
{
    let ghost first = errors@;
    let ghost c = code@;
    proof {
        lemma_varname(c, false);
        reveal(simple_item);
    }
    let name = parse_varname(code, false);
    let ghost (view, d) = varname(c, false);
    proof {
        reveal_strlit("rule");
        reveal_strlit("build");
        reveal_strlit("default");
        reveal_strlit("pool");
        reveal_strlit("for");
        assert("for"@.len() == 3);
        assert("rule"@.len() == 4);
        assert("build"@.len() == 5);
        assert("default"@.len() == 7);
        assert("pool"@.len() == 4);
    }
    let keyword = name.as_str();
    if same_text(keyword, "rule") {
        let (stmt, filler, indent_span) = parse_rule(code, errors, indent, name.span());
        (Item::Rule(stmt), filler, indent_span)
    } else if same_text(keyword, "build") {
        let (stmt, filler, indent_span) = parse_build(code, errors, indent, name.span());
        (Item::Build(stmt), filler, indent_span)
    } else if same_text(keyword, "default") {
        let stmt = parse_default(code, errors, name.span());
        let ghost p = default_stmt(d, view.span);
        let (filler, indent_span) = parse_behind::<DefaultView>(
            code,
            errors,
            Ghost(first),
            Ghost(p),
        );
        (Item::Default(stmt), filler, indent_span)
    } else if same_text(keyword, "pool") {
        let (stmt, filler, indent_span) = parse_pool(code, errors, indent, name.span());
        (Item::Pool(stmt), filler, indent_span)
    } else if same_text(keyword, "for") {
        proof {
            lemma_for_word(c);
        }
        let (stmt, filler, indent_span) = parse_for(code, errors, indent, name.span());
        (Item::For(stmt), filler, indent_span)
    } else {
        let stmt = parse_let(code, errors, name);
        let ghost p = let_stmt(d, view);
        let (filler, indent_span) = parse_behind::<LetView>(code, errors, Ghost(first), Ghost(p));
        (Item::Let(stmt), filler, indent_span)
    }
}

/// Reads a whole file.
pub fn parse_file<'a>(code: &mut CodeIter<'a>, errors: &mut Vec<ParseError>) -> (r: MexFile<'a>)
    requires
        old(code).wf(),
    ensures
        ({
            let p = file(old(code)@);
            &&& moved(*old(code), *final(code), p.next)
            &&& reported(old(errors)@, final(errors)@, p.errors)
            &&& r@ == p.value
        }),
        final(code)@.at_end(),
{
    let ghost first = errors@;
    let ghost c = code@;
    let ghost f = filler(c);
    let ghost w = whitespace(f.next);
    proof {
        lemma_file(c);
        lemma_filler(c);
        lemma_whitespace(f.next);
    }
    let mut found: Vec<(Item<'a>, Filler<'a>)> = Vec::new();
    let opening_filler = parse_filler(code, errors);
    let ghost mid = errors@;
    let mut indent_span = eat_whitespace(code, Some(&mut *errors));
    proof {
        lemma_reported_more(first, mid, errors@, f.errors, w.errors);
    }
    let ghost goal = items(w.next, w.value);
    let ghost start = f.errors + w.errors;
    let ghost mut known = start;
    proof {
        assert(item_views(found@) + goal.value =~= goal.value);
    }
    while !code.is_empty()
        invariant
            code.wf(),
            code.reads() == old(code).reads(),
            indent_span@.forward(),
            reported(first, errors@, known),
            ({
                let p = items(code@, indent_span@);
                &&& goal.value == item_views(found@) + p.value
                &&& goal.next == p.next
                &&& start + goal.errors == known + p.errors
            }),
        decreases code@.left(),
    {
        let ghost from = code@;
        let ghost e0 = errors@;
        let ghost i = item(from, indent_span@.len());
        let ghost odd = plain_error("unexpected indent"@, indent_span@, "here"@);
        proof {
            lemma_item(from, indent_span@.len());
        }
        let indented = !indent_span.is_empty();
        if indented {
            report(errors, new_parse_error("unexpected indent", &indent_span, "here"));
        }
        proof {
            lemma_reported_if(first, e0, errors@, known, indented, odd);
        }
        let ghost e1 = errors@;
        let (item, filler, indent) = parse_item(code, errors, indent_span);
        indent_span = indent;
        let ghost had = item_views(found@);
        found.push((item, filler));
        proof {
            let rest = items(i.next, i.indent);
            let head = (i.value, i.filler);
            let e = error_if(indented, odd);
            lemma_reported_more(first, e1, errors@, known + e, i.errors);
            assert(item_views(found@) =~= had + seq![head]);
            assert(had + (seq![head] + rest.value) =~= had + seq![head] + rest.value);
            assert(known + (e + i.errors + rest.errors) =~= known + e + i.errors + rest.errors);
            known = known + e + i.errors;
        }
    }
    proof {
        assert(item_views(found@) + seq![] =~= item_views(found@));
        assert(known + seq![] =~= known);
    }
    MexFile { opening_filler, items: found }
}

} // verus!
