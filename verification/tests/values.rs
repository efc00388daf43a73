use mex::ast::{EvalString, EvalStringPieceData};
use mex::code::{CodeIter, Source, Spanned};
use mex::error::ParseError;
use mex::grammar::EvalStrNewline;
use mex::parse::{eat_whitespace, parse_eval_str, parse_varname};

fn source(code: &str) -> Source {
    Source { path: "build.mex".to_string(), code: code.to_string() }
}

fn show(value: &EvalString) -> Vec<String> {
    let mut out = Vec::new();
    for p in &value.pieces {
        let data = match &p.data {
            EvalStringPieceData::Literal(lit) => format!("lit {}", lit),
            EvalStringPieceData::Var(var) => format!("var {}", var.as_str()),
            EvalStringPieceData::QuoteVar(var) => format!("quoted {}", var.as_str()),
            EvalStringPieceData::Func(f) => format!("func [{}]", show(f).join(", ")),
            EvalStringPieceData::QuoteFunc(f) => format!("quoted func [{}]", show(f).join(", ")),
        };
        let range = p.span().to_range();
        out.push(format!("{}..{} {}", range.start, range.end, data));
    }
    out
}

fn written(value: &EvalString) -> String {
    let mut out = String::new();
    value.fmt(&mut out);
    out
}

fn titles(errors: &Vec<ParseError>) -> Vec<&str> {
    errors.iter().map(|e| e.title.as_str()).collect()
}

/// Reads a path; gives its parts, what is left, and the errors.
fn path(code: &str) -> (Vec<String>, String, Vec<String>) {
    let s = source(code);
    let mut iter = CodeIter::new(&s);
    let mut errors = Vec::new();
    let v = parse_eval_str(&mut iter, &mut errors, &[' ', ':', '|'], EvalStrNewline::Stop, false);
    let e = titles(&errors).iter().map(|t| t.to_string()).collect();
    (show(&v), iter.as_str().to_string(), e)
}

/// Reads a line; gives its parts, what is left, and the errors.
fn line(code: &str) -> (Vec<String>, String, Vec<String>) {
    let s = source(code);
    let mut iter = CodeIter::new(&s);
    let mut errors = Vec::new();
    let v = parse_eval_str(&mut iter, &mut errors, &[], EvalStrNewline::Consume, false);
    let e = titles(&errors).iter().map(|t| t.to_string()).collect();
    (show(&v), iter.as_str().to_string(), e)
}

fn none() -> Vec<String> {
    Vec::new()
}

#[test]
fn a_plain_path_is_kept() {
    assert_eq!(path("src/é.c: x"), (vec!["0..8 lit src/é.c".to_string()], ": x".to_string(), none()));
    assert_eq!(path("a\r\nb"), (vec!["0..1 lit a".to_string()], "\r\nb".to_string(), none()));
    assert_eq!(path(""), (none(), "".to_string(), none()));
    assert_eq!(path("| b"), (none(), "| b".to_string(), none()));
}

#[test]
fn signs_are_escaped_with_a_dollar_sign() {
    let (parts, rest, errors) = path("a$ b$:c$$d$^e|");
    assert_eq!(
        parts,
        vec![
            "0..1 lit a",
            "1..3 lit  ",
            "3..4 lit b",
            "4..6 lit :",
            "6..7 lit c",
            "7..9 lit $",
            "9..10 lit d",
            "10..12 lit \n",
            "12..13 lit e",
        ]
    );
    assert_eq!(rest, "|");
    assert_eq!(errors, none());
}

#[test]
fn an_escaped_line_break_is_dropped_with_the_indentation() {
    let (parts, rest, errors) = line("a$\n   b$\r\nc\nd");
    assert_eq!(parts, vec!["0..1 lit a", "6..7 lit b", "10..11 lit c"]);
    assert_eq!(rest, "d");
    assert_eq!(errors, none());
}

#[test]
fn variables_with_and_without_braces() {
    let (parts, rest, errors) = line("$x.y ${x.y}z\n");
    assert_eq!(
        parts,
        vec!["0..2 var x", "2..5 lit .y ", "5..10 var x.y", "11..12 lit z"]
    );
    assert_eq!(rest, "");
    assert_eq!(errors, none());
}

#[test]
fn functions_and_quoted_values() {
    let (parts, _, errors) = line("$(f $x) $\"y.z\" $\"(g\n$(h) $\"i\")\"\n");
    assert_eq!(
        parts,
        vec![
            "0..6 func [2..4 lit f , 4..6 var x]",
            "7..8 lit  ",
            "8..14 quoted y.z",
            "14..15 lit  ",
            "15..31 quoted func [18..19 lit g, 19..20 lit \n, 20..23 func [22..23 lit h], \
             24..25 lit  , 25..29 quoted i]",
        ]
    );
    assert_eq!(errors, none());
}

#[test]
fn a_closing_parenthesis_in_quotes_closes_nothing() {
    let (parts, _, errors) = line("$(a ')' \\) \")\")\n");
    assert_eq!(parts, vec!["0..14 func [2..14 lit a ')' \\) \")\"]"]);
    assert_eq!(errors, none());
}

#[test]
fn values_are_written_in_one_form() {
    let s = source("a$ b $x${y} $\"z\" $(f $w) $\"(g)\" $$ $:\n");
    let mut iter = CodeIter::new(&s);
    let mut errors = Vec::new();
    let v = parse_eval_str(&mut iter, &mut errors, &[], EvalStrNewline::Consume, false);
    assert_eq!(written(&v), "a b ${x}${y} $\"z\" $(f ${w}) $\"(g)\" $$ $:");
    assert!(errors.is_empty());
    assert_eq!(v.span().to_range(), 0..38);
}

#[test]
fn a_plain_value_is_written_as_it_was_read() {
    for (text, out) in [("a | b\n", "a | b"), ("|\n", "$|"), (":\n", "$:"), ("::\n", "::")] {
        let s = source(text);
        let mut iter = CodeIter::new(&s);
        let mut errors = Vec::new();
        let v = parse_eval_str(&mut iter, &mut errors, &[], EvalStrNewline::Consume, false);
        assert_eq!(written(&v), out);
        assert!(iter.is_empty());
        assert!(errors.is_empty());
    }
}

#[test]
fn a_value_ends_with_its_line() {
    assert_eq!(line("a\nb"), (vec!["0..1 lit a".to_string()], "b".to_string(), none()));
    assert_eq!(
        line("a"),
        (vec!["0..1 lit a".to_string()], "".to_string(), vec!["unexpected EOF".to_string()])
    );
    let (parts, rest, errors) = line("a\rb\nc");
    assert_eq!(parts, vec!["0..1 lit a", "2..3 lit b"]);
    assert_eq!(rest, "c");
    assert_eq!(errors, vec!["naked carriage returns aren't supported"]);
}

#[test]
fn names_and_brackets_that_are_missing() {
    for (text, expected) in [
        ("${}\n", vec!["expected a variable name"]),
        ("${x\n", vec!["expected a closing curly brace '}'"]),
        ("${\n", vec!["expected a variable name", "expected a closing curly brace '}'"]),
        ("$\"\"\n", vec!["expected a variable name"]),
        ("$\"x\n", vec!["expected a closing double quote (\")"]),
        ("$,\n", vec!["bad $-escape (literal $ must be written as $$)"]),
        ("$", vec!["bad $-escape (literal $ must be written as $$)", "unexpected EOF"]),
        ("$(a", vec!["expected closing parenthesis ')'", "unexpected EOF"]),
        ("$\"(a\" x", vec!["expected closing parenthesis ')'", "unexpected EOF"]),
        ("$'x'\n", vec!["quoted variables and functions must use double quotes (\")"]),
        (
            "$'x\"\n",
            vec![
                "expected a closing double quote (\")",
                "quoted variables and functions must use double quotes (\")",
            ],
        ),
    ] {
        assert_eq!(line(text).2, expected, "{:?}", text);
    }
}

#[test]
fn expansions_must_be_words_of_their_own_in_functions() {
    for (text, expected) in [
        ("$(f $x $y)\n", vec![]),
        ("$($x$y)\n", vec!["an expansion must be preceded by whitespace"]),
        ("$(a$x)\n", vec!["an expansion must be preceded by whitespace"]),
        ("$($x.y)\n", vec!["an expansion must be followed by whitespace"]),
        ("$($x$\"y\")\n", vec!["an expansion must be followed by whitespace"]),
        ("$(a$ $x)\n", vec![]),
        ("$(a$^$x)\n", vec![]),
        ("$(a\n$x)\n", vec![]),
        ("$(a\\ $x)\n", vec!["an expansion must be preceded by whitespace"]),
        (
            "$('$x')\n",
            vec![
                "an expansion must be preceded by whitespace",
                "cannot expand inside quotes",
                "an expansion must be followed by whitespace",
            ],
        ),
        (
            "$(\" $(y) \")\n",
            vec!["an expansion must be preceded by whitespace", "cannot expand inside quotes"],
        ),
        ("$('$\"x\"')\n", vec!["cannot nest quoted expressions inside other quotes"]),
        ("$(\\$\"x\")\n", vec!["quoted values cannot be preceded by backslashes"]),
        ("a$x.b$y\n", vec![]),
    ] {
        assert_eq!(line(text).2, expected, "{:?}", text);
    }
}

#[test]
fn names_are_the_longest_run_of_their_characters() {
    let s = source("a-b_9.Z é");
    let mut code = CodeIter::new(&s);
    let name = parse_varname(&mut code, true);
    assert_eq!(name.as_str(), "a-b_9");
    assert_eq!(name.span().to_range(), 0..5);
    let name = parse_varname(&mut code, true);
    assert!(!name.is_valid());
    assert_eq!(name.as_str(), "<invalid-name>");
    assert_eq!(name.span().to_range(), 5..5);
    assert!(name.valid().is_none());
    let name = parse_varname(&mut code, false);
    assert_eq!(name.as_str(), ".Z");
    assert!(name.is_valid());
    let name = name.valid().unwrap();
    let mut out = String::new();
    name.fmt(&mut out);
    assert_eq!(out, ".Z");
}

#[test]
fn white_space_is_read_at_once() {
    let s = source("  $\n \t\r \u{a0}x");
    let mut code = CodeIter::new(&s);
    let mut errors = Vec::new();
    let span = eat_whitespace(&mut code, Some(&mut errors));
    assert_eq!(span.to_range(), 0..10);
    assert_eq!(code.as_str(), "x");
    assert_eq!(
        titles(&errors),
        vec![
            "unsupported whitespace (only a plain space, ' ', is allowed)",
            "naked carriage returns aren't supported",
            "unsupported whitespace (only a plain space, ' ', is allowed)",
        ]
    );
    let span = eat_whitespace(&mut code, Some(&mut errors));
    assert!(span.is_empty());
    assert_eq!(errors.len(), 3);
}

#[test]
fn blanks_are_spaces_and_escaped_line_breaks() {
    let s = source(" $\r\n $\n\t x");
    let mut code = CodeIter::new(&s);
    let span = eat_whitespace(&mut code, None);
    assert_eq!(span.to_range(), 0..7);
    assert_eq!(code.as_str(), "\t x");
}

#[test]
fn a_line_break_is_no_white_space() {
    let s = source(" \r\n x");
    let mut code = CodeIter::new(&s);
    let mut errors = Vec::new();
    assert_eq!(eat_whitespace(&mut code, Some(&mut errors)).len(), 1);
    assert_eq!(code.as_str(), "\r\n x");
    assert!(errors.is_empty());
}
