use mex::code::{CodeIter, Source, Spanned};
use mex::error::{new_parse_error, new_parse_error_expected, render};
use mex::run::{examine, parse_source};

fn source(code: &str) -> Source {
    Source { path: "dir/build.mex".to_string(), code: code.to_string() }
}

/// A report without the signs that colour it.
fn plain(report: &str) -> String {
    let mut out = String::new();
    let mut chars = report.chars();
    while let Some(ch) = chars.next() {
        if ch == '\u{1b}' {
            for c in chars.by_ref() {
                if c == 'm' {
                    break;
                }
            }
        } else {
            out.push(ch);
        }
    }
    out
}

#[test]
fn a_good_source_has_no_report() {
    let outcome = examine(&source("x=1\n")).ok().unwrap();
    assert_eq!(outcome.ast, "x = 1\n");
    assert_eq!(outcome.report, None);
}

#[test]
fn a_bad_source_has_a_report() {
    let outcome = examine(&source("ok = 1\nx\n")).ok().unwrap();
    assert_eq!(outcome.ast, "ok = 1\nx = \n");
    let report = outcome.report.unwrap();
    let text = plain(&report);
    assert!(text.contains("error: expected assignment operator '='"), "{}", text);
    assert!(text.contains("dir/build.mex:2:2"), "{}", text);
    assert!(text.contains("here"), "{}", text);
    assert!(text.contains("help: try applying the following change"), "{}", text);
    assert!(report.contains('\u{1b}'));
}

#[test]
fn a_null_character_is_refused() {
    let r = examine(&source("x = \0\n"));
    assert_eq!(
        r.err().unwrap(),
        "Null bytes are not supported (file: dir/build.mex)"
    );
}

#[test]
fn a_report_shows_all_errors() {
    let s = source("rule r\n  foo = 1\npool p\nv = $'x'\n");
    let (_, errors) = parse_source(&s);
    assert_eq!(errors.len(), 3);
    let text = plain(&render(&s, errors));
    assert!(text.contains("unexpected variable 'foo'"), "{}", text);
    assert!(text.contains("while parsing"), "{}", text);
    assert!(text.contains("rules may only bind certain variables"), "{}", text);
    assert!(text.contains("expected 'depth =' line"), "{}", text);
    assert!(text.contains("depth = <number>"), "{}", text);
    assert!(text.contains("must use double quotes"), "{}", text);
    assert!(text.contains("and here"), "{}", text);
}

#[test]
fn reports_can_be_made_of_any_text() {
    for code in [
        "",
        "é",
        "$",
        "rule\n\t\u{a0}x\r",
        "for é in\n  build\n    $(\"",
        "pool\r\n  $'(é\n",
        "x = ${\r}\n#",
        "build a: r || b\n",
    ] {
        let s = source(code);
        let (file, errors) = parse_source(&s);
        let mut out = String::new();
        file.fmt(&mut out);
        if !errors.is_empty() {
            assert!(plain(&render(&s, errors)).contains("error"));
        }
    }
}

#[test]
fn errors_can_be_made_by_hand() {
    let s = source("abc\n");
    let mut code = CodeIter::new(&s);
    code.next_char();
    let e = new_parse_error("bad", &code, "label");
    assert_eq!(e.title, "bad");
    assert_eq!(e.marks.len(), 1);
    assert!(e.info.is_none() && e.help.is_none() && e.edits.is_none());
    let e = new_parse_error_expected("bad", "good", &code.span(), "label");
    assert_eq!(e.help, Some("try applying the following change"));
    let edits = e.edits.as_ref().unwrap();
    assert_eq!(edits.len(), 1);
    assert_eq!(edits[0].range, 1..1);
    assert_eq!(edits[0].replacement, "good");
    let text = plain(&render(&s, vec![e]));
    assert!(text.contains("error: bad"), "{}", text);
    assert!(text.contains("agoodbc"), "{}", text);
}

#[test]
fn reports_can_be_made_of_random_texts() {
    let parts = [
        "rule ", "build ", "default ", "pool ", "for ", "in ", "depth", "command", " ", "  ", "    ",
        "\n", "\n", "\n  ", "\r\n", "\r", "\t", "\u{a0}", "\u{200d}", "é", "漢字", "\u{1f600}", "\u{7}",
        "$", "$(", ")", "${", "}", "$\"", "\"", "$'", "'", "\\", "$'(", ")'", "$:", "$^", "$ ", "$\n",
        ":", "|", "||", "|@", "@", "!", "#", "=", " = ", "x", "abc", "a.b-c_1", "", "<invalid-name>",
        "long long long long long long long long long long long long long long long long long ",
    ];
    let mut seed: u64 = 1;
    for round in 0..3000u64 {
        let mut code = String::new();
        for _ in 0..(round % 40) {
            seed = seed.wrapping_mul(6364136223846793005).wrapping_add(1442695040888963407);
            code.push_str(parts[((seed >> 33) % (parts.len() as u64)) as usize]);
        }
        let s = source(&code);
        let (file, errors) = parse_source(&s);
        let mut out = String::new();
        file.fmt(&mut out);
        if !errors.is_empty() {
            assert!(plain(&render(&s, errors)).contains("error"), "{:?}", code);
        }
    }
}
