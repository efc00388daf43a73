use mex::code::{CodeIter, Source, Spanned};
use mex::error::{AnnotationKind, ParseError};
use mex::parse_stmt::{
    is_reserved_binding, parse_build, parse_default, parse_file, parse_filler, parse_for,
    parse_item, parse_let, parse_paths, parse_pool, parse_rule,
};
use mex::parse::parse_varname;
use mex::run::parse_source;
use mex::stmt::Item;

fn source(code: &str) -> Source {
    Source { path: "build.mex".to_string(), code: code.to_string() }
}

fn written(code: &str) -> String {
    let s = source(code);
    let (file, _) = parse_source(&s);
    let mut out = String::new();
    file.fmt(&mut out);
    out
}

fn titles(code: &str) -> Vec<String> {
    let s = source(code);
    let (_, errors) = parse_source(&s);
    errors.iter().map(|e| e.title.clone()).collect()
}

fn none() -> Vec<String> {
    Vec::new()
}

/// Shows an error with all that belongs to it.
fn show(e: &ParseError) -> Vec<String> {
    let mut out = vec![e.title.clone()];
    for a in &e.marks {
        let kind = match a.kind {
            AnnotationKind::Primary => "at",
            AnnotationKind::Context => "in",
        };
        out.push(format!("{} {:?} {}", kind, a.range, a.label));
    }
    if let Some(text) = e.info {
        out.push(format!("info: {}", text));
    }
    if let Some(text) = e.help {
        out.push(format!("help: {}", text));
    }
    if let Some(edits) = &e.edits {
        for p in edits {
            out.push(format!("put {:?} {:?}", p.range, p.replacement));
        }
    }
    out
}

fn first_error(code: &str) -> Vec<String> {
    let s = source(code);
    let (_, errors) = parse_source(&s);
    show(&errors[0])
}

#[test]
fn an_empty_file_is_a_file() {
    assert_eq!(written(""), "");
    assert_eq!(titles(""), none());
    assert_eq!(written("\n  \n"), "\n\n");
}

#[test]
fn a_whole_file_is_read_and_written() {
    let code = "\n# first\n\n  # second\ncflags =   -O2 $extra\n\nrule cc\n  command = gcc $in\n  \
                # why\n  @touch $out\n  !rm ${x}\nbuild a.o | a.d: cc a.c | a.h || dirs |@ lint\n    \
                flags = -g\npool link\n  depth = 4\n\ndefault a.o b.o\nfor x in a b\n  \
                build $x: cc\n  y = 1\nz = 2\n";
    let out = "\n# first\n\n  # second\ncflags = -O2 ${extra}\n\nrule cc\n  command = gcc ${in}\n  \
               # why\n  @touch ${out}\n  !rm ${x}\nbuild a.o | a.d: cc a.c | a.h || dirs |@ lint\n    \
               flags = -g\npool link\n  depth = 4\n\ndefault a.o b.o\nfor x in a b\n  \
               build ${x}: cc\n  y = 1\nz = 2\n";
    assert_eq!(titles(code), none());
    assert_eq!(written(code), out);
}

#[test]
fn a_file_is_read_to_its_end() {
    for code in ["", "x", "\u{0}\u{1}", "rule", "build a", "  \t\r ", "for\n  for\n    x", "é$"] {
        let s = source(code);
        let mut iter = CodeIter::new(&s);
        let mut errors = Vec::new();
        parse_file(&mut iter, &mut errors);
        assert!(iter.is_empty(), "{:?}", code);
        for e in &errors {
            for a in &e.marks {
                assert!(code.get(a.range.clone()).is_some());
            }
            for p in e.edits.iter().flatten() {
                assert!(code.get(p.range.clone()).is_some());
            }
        }
    }
}

#[test]
fn assignments() {
    assert_eq!(written("x=1\n"), "x = 1\n");
    assert_eq!(written("x = $\n   1\n"), "x = 1\n");
    assert_eq!(titles("x\n"), vec!["expected assignment operator '='"]);
    assert_eq!(titles("= 1\n"), vec!["expected a variable name"]);
    assert_eq!(titles("x = 1"), vec!["unexpected EOF"]);
    assert_eq!(written("= 1\n"), "<invalid-name> = = 1\n");
    assert_eq!(
        titles("x\t= 1\n"),
        vec!["unsupported whitespace (only a plain space, ' ', is allowed)"]
    );
    assert_eq!(titles("x \r= 1\n"), vec!["naked carriage returns aren't supported"]);
}

#[test]
fn an_error_says_what_should_stand_there() {
    assert_eq!(
        first_error("x\n"),
        vec![
            "expected assignment operator '='",
            "at 1..1 here",
            "help: try applying the following change",
            "put 1..1 \" = \"",
        ]
    );
    assert_eq!(
        first_error("x = 1"),
        vec!["unexpected EOF", "at 5..5 here"]
    );
    assert_eq!(
        first_error("v = $'x'\n"),
        vec![
            "quoted variables and functions must use double quotes (\")",
            "at 5..6 here",
            "at 7..8 and here",
            "help: try applying the following change",
            "put 5..6 \"\\\"\"",
            "put 7..8 \"\\\"\"",
        ]
    );
    assert_eq!(
        first_error("v = $( ' $x '  )\n")[0..2],
        ["an expansion must be preceded by whitespace", "at 9..9 here"]
    );
    let s = source("v = $( ' $x '  )\n");
    let (_, errors) = parse_source(&s);
    assert_eq!(
        show(&errors[1]),
        vec![
            "cannot expand inside quotes",
            "at 9..11 here",
            "help: the variable may contain quotes which will corrupt quoting",
        ]
    );
    assert_eq!(
        first_error("v = $($x.y)\n"),
        vec![
            "an expansion must be followed by whitespace",
            "at 8..8 after this",
            "help: try applying the following change",
            "put 8..8 \" \"",
        ]
    );
    assert_eq!(
        first_error("v = $('$\"x\"')\n"),
        vec!["cannot nest quoted expressions inside other quotes", "at 7..11 this expression is quoted"]
    );
}

#[test]
fn rules() {
    assert_eq!(titles("rule r\n  command = x\n  deps = gcc\n"), none());
    assert_eq!(
        first_error("rule \n"),
        vec![
            "expected a rule name",
            "at 5..5 here",
            "help: try applying the following change",
            "put 5..5 \" <rule_name>\"",
        ]
    );
    assert_eq!(titles("rule r x\n"), vec!["expected newline"]);
    assert_eq!(
        first_error("rule r\n  foo = 1\n"),
        vec![
            "unexpected variable 'foo'",
            "in 0..6 while parsing",
            "at 9..12 here",
            "info: rules may only bind certain variables",
        ]
    );
    assert_eq!(written("rule r\n  foo = 1\n"), "rule r\n  foo = 1\n");
    assert_eq!(titles("rule r\n  = 1\n"), vec!["expected a variable name"]);
    assert_eq!(titles("build a: r\n  @x\n"), vec!["expected a variable name"]);
}

#[test]
fn bindings_are_the_lines_that_are_indented_more() {
    let code = "for x in a\n   rule r\n     command = 1\n     depfile = 2\n   y = 1\nz = 1\n";
    let s = source(code);
    let (file, errors) = parse_source(&s);
    assert!(errors.is_empty());
    assert_eq!(file.items.len(), 2);
    let body = match &file.items[0].0 {
        Item::For(stmt) => &stmt.items,
        _ => panic!("no for"),
    };
    assert_eq!(body.len(), 2);
    assert_eq!(body[0].indent_span.len(), 3);
    assert_eq!(body[1].indent_span.len(), 3);
    match &body[0].item {
        Item::Rule(stmt) => {
            assert_eq!(stmt.bindings.len(), 2);
            assert_eq!(stmt.bindings[0].1.indent_span.len(), 5);
            assert_eq!(stmt.bindings[1].1.let_stmt.var.as_str(), "depfile");
        }
        _ => panic!("no rule"),
    }
    assert!(matches!(body[1].item, Item::Let(_)));
    assert_eq!(written(code), code);
}

#[test]
fn pools() {
    assert_eq!(titles("pool p\n  depth = 4\n"), none());
    assert_eq!(titles("pool\n  depth = 4\n"), vec!["expected a pool name"]);
    assert_eq!(
        first_error("pool p\nx = 1\n"),
        vec![
            "expected 'depth =' line",
            "in 0..6 while parsing",
            "at 7..7 here",
            "info: pools require a 'depth' variable binding",
            "help: try the following change",
            "put 7..7 \"\\n    depth = <number>\"",
        ]
    );
    assert_eq!(
        titles("pool p\n  size = 4\n"),
        vec!["unexpected variable 'size'", "expected 'depth =' line"]
    );
    assert_eq!(
        first_error("pool p\n  size = 4\n")[3],
        "info: pools must have only a 'depth' variable binding"
    );
    assert_eq!(written("pool p\n  size = 4\n  depth = 1\n"), "pool p\n  depth = 1\n");
}

#[test]
fn builds() {
    assert_eq!(titles("build a b: r c\n"), none());
    assert_eq!(written("build  | b :  r\n"), "build | b: r\n");
    assert_eq!(titles("build : r\n"), vec!["expected output path"]);
    assert_eq!(titles("build a b\n"), vec!["expected colon", "expected a rule name"]);
    assert_eq!(titles("build a: \n"), vec!["expected a rule name"]);
    assert_eq!(titles("build a: r : c\n"), vec!["unexpected colon"]);
    assert_eq!(
        first_error("build a: r : c\n"),
        vec!["unexpected colon", "at 11..12 here"]
    );
    assert_eq!(titles("build a: r b"), vec!["expected newline"]);
    assert_eq!(titles("build a$:b$ c: r\n"), none());
}

#[test]
fn two_pipes_follow_implicit_dependencies() {
    assert_eq!(titles("build a: r b | c || d |@ e\n"), none());
    assert_eq!(titles("build a: r | c |@ e\n"), none());
    assert_eq!(titles("build a: r b || d\n"), vec!["expected newline"]);
    assert_eq!(titles("build a: r b |@ d\n"), none());
    let s = source("build a: r b |@ d\n");
    let (file, _) = parse_source(&s);
    match &file.items[0].0 {
        Item::Build(stmt) => {
            assert_eq!(stmt.deps.len(), 1);
            assert_eq!(stmt.implicit_deps.len(), 2);
            assert_eq!(stmt.validations.len(), 0);
        }
        _ => panic!("no build"),
    }
}

#[test]
fn defaults() {
    assert_eq!(written("default   a   $b\n"), "default a ${b}\n");
    assert_eq!(titles("default a : b\n"), vec!["unexpected colon"]);
    assert_eq!(titles("default a | b\n"), vec!["unexpected pipe"]);
    assert_eq!(titles("default a"), vec!["expected newline"]);
    assert_eq!(written("default\n"), "default\n");
}

#[test]
fn loops() {
    assert_eq!(titles("for x in a b\n  y = $x\n"), none());
    assert_eq!(titles("for x a\n"), vec!["expected 'in'"]);
    assert_eq!(titles("for x in $y\n"), vec!["expected a space ' '"]);
    assert_eq!(
        titles("for \n"),
        vec!["expected a variable name", "expected 'in'", "expected a space ' '"]
    );
    assert_eq!(
        first_error("for \n"),
        vec![
            "expected a variable name",
            "at 4..4 here",
            "help: try applying the following change",
            "put 4..4 \" <var_name>\"",
        ]
    );
    assert_eq!(
        written("for x in a\n  for y in b\n    z = 1\n\nw = 2\n"),
        "for x in a\n  for y in b\n    z = 1\n\nw = 2\n"
    );
}

#[test]
fn indentation_has_a_meaning_only_below_a_statement() {
    assert_eq!(titles("  x = 1\n"), vec!["unexpected indent"]);
    assert_eq!(first_error("  x = 1\n"), vec!["unexpected indent", "at 0..2 here"]);
    assert_eq!(titles("x = 1\n y = 2\n"), vec!["unexpected indent"]);
}

#[test]
fn filler_is_written_as_it_was_read() {
    let code = "\n\n # a \r\n#b\n\n\n";
    assert_eq!(written(code), code);
    assert_eq!(titles(code), none());
    let s = source(code);
    let mut iter = CodeIter::new(&s);
    let mut errors = Vec::new();
    let filler = parse_filler(&mut iter, &mut errors);
    assert!(!filler.is_empty());
    assert_eq!(filler.start_newlines, 2);
    assert_eq!(filler.comments.len(), 2);
    assert_eq!(filler.comments[0].text, " # a \r");
    assert_eq!(filler.comments[0].post_newlines, 1);
    assert_eq!(filler.comments[0].span().start().offset(), 8);
    assert_eq!(filler.comments[0].span().end().offset(), 2);
    assert_eq!(filler.comments[1].post_newlines, 3);
    assert_eq!(filler.span.to_range(), 0..14);
    let filler = parse_filler(&mut iter, &mut errors);
    assert!(filler.is_empty());
}

#[test]
fn a_comment_needs_a_line_break() {
    assert_eq!(titles("# c"), vec!["expected newline"]);
    assert_eq!(written("# c"), "# c\n");
    assert_eq!(titles("x = 1\n  # c"), vec!["expected newline"]);
}

#[test]
fn no_path_reads_only_white_space() {
    let s = source("  : r");
    let mut iter = CodeIter::new(&s);
    let mut errors = Vec::new();
    assert_eq!(parse_paths(&mut iter, &mut errors).len(), 0);
    assert_eq!(iter.pos().offset(), 2);
    assert!(errors.is_empty());
}

#[test]
fn statements_can_be_read_one_by_one() {
    let s = source("x = 1\n  y");
    let mut iter = CodeIter::new(&s);
    let mut errors = Vec::new();
    let indent = iter.span();
    let (item, filler, next) = parse_item(&mut iter, &mut errors, indent);
    assert!(matches!(item, Item::Let(_)));
    assert!(filler.is_empty());
    assert_eq!(next.to_range(), 6..8);
    assert_eq!(iter.as_str(), "y");

    let s = source("rule r\n command = 1\n  x");
    let mut iter = CodeIter::new(&s);
    let word = parse_varname(&mut iter, false);
    let (stmt, _, next) = parse_rule(&mut iter, &mut errors, indent, word.span());
    assert_eq!(stmt.bindings.len(), 2);
    assert!(next.is_empty());
    assert_eq!(stmt.rule_span.to_range(), 0..4);

    let s = source("pool p\n depth = 1\nx");
    let mut iter = CodeIter::new(&s);
    let word = parse_varname(&mut iter, false);
    let (stmt, _, _) = parse_pool(&mut iter, &mut errors, indent, word.span());
    assert_eq!(stmt.name.as_str(), "p");
    assert_eq!(iter.as_str(), "x");

    let s = source("build a: r\nx");
    let mut iter = CodeIter::new(&s);
    let word = parse_varname(&mut iter, false);
    let (stmt, _, _) = parse_build(&mut iter, &mut errors, indent, word.span());
    assert_eq!(stmt.rule.as_str(), "r");
    assert_eq!(iter.as_str(), "x");

    let s = source("for a in b\nx");
    let mut iter = CodeIter::new(&s);
    let word = parse_varname(&mut iter, false);
    let (stmt, _, _) = parse_for(&mut iter, &mut errors, indent, word.span());
    assert_eq!(stmt.var.as_str(), "a");
    assert!(stmt.items.is_empty());
    assert_eq!(iter.as_str(), "x");

    let s = source("default a b\nx");
    let mut iter = CodeIter::new(&s);
    let word = parse_varname(&mut iter, false);
    let stmt = parse_default(&mut iter, &mut errors, word.span());
    assert_eq!(stmt.outs.len(), 2);
    assert_eq!(iter.as_str(), "x");

    let s = source("a = b\nx");
    let mut iter = CodeIter::new(&s);
    let word = parse_varname(&mut iter, false);
    let stmt = parse_let(&mut iter, &mut errors, word);
    let mut out = String::new();
    stmt.fmt(&mut out);
    assert_eq!(out, "a = b\n");
}

#[test]
fn variables_that_rules_may_bind() {
    for name in [
        "command",
        "depfile",
        "dyndep",
        "description",
        "deps",
        "generator",
        "pool",
        "restat",
        "rspfile",
        "rspfile_content",
        "msvc_deps_prefix",
    ] {
        assert!(is_reserved_binding(name));
    }
    assert!(!is_reserved_binding("depth"));
    assert!(!is_reserved_binding(""));
    assert!(!is_reserved_binding("Command"));
}

#[test]
fn a_plain_assignment_is_written_as_it_was_read() {
    for code in ["x = 1\n", "a.b-c = some | text: with 'quotes'\n"] {
        assert_eq!(written(code), code);
        assert_eq!(titles(code), none());
    }
}
