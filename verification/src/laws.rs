//! What holds of the library as a whole.

use vstd::prelude::*;

use crate::ast::{pieces_text, repeated, EvalStringView};
use crate::code::{Cursor, SpanView};
use crate::error::{all_fit, plain_error, ErrorView};
use crate::fits_stmt::{lemma_file_fits, lemma_file_printable};
use crate::grammar::{
    blanks, dollar, ends_literal, eval_from, eval_step, eval_string, expansion, in_line,
    inner_white, is_space, lemma_blanks, lemma_literal, lemma_scan, lemma_scan_is, lemma_skip_white,
    line_rules, lit_piece, literal, naked_return, name_char, name_chars, path_rules, quoted, scan,
    skip_white, varname, whitespace, EvalRules, QuoteState,
};
use crate::list::{parts_words, QuoteMode, WordScan};
use crate::progress::{
    lemma_binding, lemma_blank_lines, lemma_comment, lemma_comments, lemma_eval_step, lemma_file,
    lemma_filler, lemma_for_body, lemma_invalid_name, lemma_item, lemma_path, lemma_varname,
    lemma_whitespace,
};
use crate::sound::lemma_file_sound;
use crate::stmt::{comments_text, CommentView, FillerView};
use crate::syntax::{
    at_comment, binding, blank_lines, block, comment, comments, file, filler, for_body, item,
    let_stmt, line_value, path, paths, paths_from, BlockKind,
};

verus! {

// ------------------------------------------------------------------- the file

/// Reading a file reads all of its text.
pub proof fn law_file_is_read_to_its_end(c: Cursor)
    requires
        c.wf(),
    ensures
        c.reaches(file(c).next),
        file(c).next.at_end(),
{
    lemma_file(c);
}

/// Everything that the errors of a file point at is a range of whole characters of its
/// text.
pub proof fn law_errors_lie_in_the_text(c: Cursor)
    requires
        c.wf(),
    ensures
        all_fit(file(c).errors, c.text),
{
    lemma_file_fits(c);
}

/// All ranges in the tree of a file are ranges of whole characters of its text; that of a
/// comment is one when its ends are exchanged. Names and comments are what stands at
/// their ranges, and literals are what stands at theirs or what an escape there stands
/// for. The parts of a text with variables stand in order, one behind the other.
pub proof fn law_tree_lies_in_the_text(c: Cursor)
    requires
        c.wf(),
    ensures
        file(c).value.fits(c.text),
{
    lemma_file_fits(c);
}

/// Every file that was read can be written out.
pub proof fn law_tree_can_be_written(c: Cursor)
    requires
        c.wf(),
    ensures
        file(c).value.printable(),
{
    lemma_file_fits(c);
    lemma_file_printable(file(c).value, c.text);
}

/// In a file without errors no name is missing, rules bind only what rules may bind,
/// pools have a depth and nothing else, and every `build` builds something.
pub proof fn law_no_error_means_sound(c: Cursor)
    requires
        c.wf(),
        file(c).errors.len() == 0,
    ensures
        file(c).value.sound(),
{
    lemma_file_sound(c);
}

// ----------------------------------------------------------------- white space

proof fn lemma_blanks_once(c: Cursor)
    ensures
        blanks(blanks(c)) == blanks(c),
    decreases c.left(),
{
    if c.sees(' ') {
        lemma_blanks_once(c.skip(1));
    } else if c.sees('$') && c.skip(1).newline() > 0 {
        lemma_blanks_once(c.skip(1 + c.skip(1).newline()));
    }
}

proof fn lemma_skip_white_end(c: Cursor)
    requires
        c.wf(),
    ensures
        ({
            let d = skip_white(c).0;
            &&& blanks(d) == d
            &&& !naked_return(d)
            &&& !inner_white(d)
            &&& skip_white(d) == (d, Seq::<ErrorView>::empty())
        }),
    decreases c.left(),
{
    let d = blanks(c);
    lemma_blanks(c);
    lemma_blanks_once(c);
    if naked_return(d) || inner_white(d) {
        lemma_skip_white_end(d.skip(1));
    }
}

/// White space is read at once: behind it there is no more.
pub proof fn law_white_space_is_read_at_once(c: Cursor)
    requires
        c.wf(),
    ensures
        ({
            let again = whitespace(whitespace(c).next);
            &&& again.next == whitespace(c).next
            &&& again.errors.len() == 0
        }),
{
    reveal(whitespace);
    lemma_skip_white_end(c);
}

// ----------------------------------------------------------------------- names

/// A name is missing only where no character of a name stands. Any other name is the
/// text at its range, and ends where the characters of a name end.
pub proof fn law_name_is_the_text_at_its_range(c: Cursor, simple: bool)
    requires
        c.wf(),
    ensures
        ({
            let (name, d) = varname(c, simple);
            &&& c.reaches(d)
            &&& name.valid() <==> c.peek() is Some && name_char(c.peek()->0, simple)
            &&& name.valid() ==> name.name == c.text_to(d) && name.span == c.to(d)
            &&& forall|k: int| c.at <= k < d.at ==> name_char(#[trigger] c.text[k], simple)
            &&& d.peek() is Some ==> !name_char(d.peek()->0, simple)
        }),
{
    let (name, d) = varname(c, simple);
    lemma_varname(c, simple);
    lemma_invalid_name(c, simple);
    lemma_scan(c, name_chars(simple));
    if c.at < d.at {
        assert(name_chars(simple)(c.text[c.at]));
    }
    assert forall|k: int| c.at <= k < d.at implies name_char(#[trigger] c.text[k], simple) by {
        assert(name_chars(simple)(c.text[k]));
    }
}

// ------------------------------------------------------- texts with variables

/// A value that begins at `c` ends at `d` with its line, or with the text, which is then
/// the last thing that is wrong with it.
pub open spec fn ends_with_line(c: Cursor, d: Cursor, errors: Seq<ErrorView>) -> bool {
    ||| c.at < d.at && d.text[d.at - 1] == '\n'
    ||| {
        &&& d.at_end()
        &&& errors.len() > 0
        &&& errors.last() == plain_error("unexpected EOF"@, d.here(), "here"@)
    }
}

proof fn lemma_eval_from_line(c: Cursor, q: QuoteState)
    requires
        c.wf(),
    ensures
        ({
            let r = eval_from(c, q, line_rules());
            c.reaches(r.next) && ends_with_line(c, r.next, r.errors)
        }),
    decreases c.left(),
{
    let s = eval_step(c, q, line_rules());
    lemma_eval_step(c, q, line_rules());
    lemma_literal(c, q, line_rules());
    if s.more is Some {
        let rest = eval_from(s.next, s.more->0, line_rules());
        lemma_eval_from_line(s.next, s.more->0);
        assert(rest.errors.len() > 0 ==> (s.errors + rest.errors).last() == rest.errors.last());
    }
}

/// A value goes on to the end of its line or of the text. The error of a text that ends
/// without a line break comes last.
pub proof fn law_value_ends_with_its_line(c: Cursor)
    requires
        c.wf(),
    ensures
        c.reaches(line_value(c).next),
        ends_with_line(c, line_value(c).next, line_value(c).errors),
{
    reveal(line_value);
    let r = eval_from(c, QuoteState::initial(), line_rules());
    lemma_eval_from_line(c, QuoteState::initial());
    assert(r.errors + seq![] =~= r.errors);
}

proof fn lemma_eval_from_path(c: Cursor, q: QuoteState)
    requires
        c.wf(),
    ensures
        ({
            let d = eval_from(c, q, path_rules()).next;
            c.reaches(d) && (d.at_end() || d.newline() > 0 || d.sees(' ') || d.sees(':')
                || d.sees('|'))
        }),
    decreases c.left(),
{
    let s = eval_step(c, q, path_rules());
    lemma_eval_step(c, q, path_rules());
    lemma_literal(c, q, path_rules());
    if s.more is Some {
        lemma_eval_from_path(s.next, s.more->0);
    }
}

/// A path ends before a space, a colon, a pipe or a line break, or at the end of the text.
pub proof fn law_path_ends_before_a_stop(c: Cursor)
    requires
        c.wf(),
    ensures
        ({
            let d = path(c).next;
            c.reaches(d) && (d.at_end() || d.newline() > 0 || d.sees(' ') || d.sees(':')
                || d.sees('|'))
        }),
{
    reveal(path);
    lemma_eval_from_path(c, QuoteState::initial());
}

proof fn lemma_literal_to(c: Cursor, q: QuoteState, rules: EvalRules, d: Cursor)
    requires
        c.wf(),
        c.reaches(d),
        !rules.quotes,
        forall|k: int| c.at <= k < d.at ==> !ends_literal(#[trigger] c.text[k], q, rules),
        d.peek() is Some ==> ends_literal(d.peek()->0, q, rules),
    ensures
        literal(c, q, rules) == (d, q),
    decreases c.left(),
{
    if c.at < d.at {
        assert(!ends_literal(c.text[c.at], q, rules));
        lemma_literal_to(c.skip(1), q, rules, d);
    }
}

/// Characters that mean nothing else are a path as they stand, up to the first space,
/// colon, pipe or line break. They are written out as they were read.
pub proof fn law_plain_path_is_kept(c: Cursor, d: Cursor)
    requires
        c.wf(),
        c.reaches(d),
        c.at < d.at,
        forall|k: int|
            c.at <= k < d.at ==> !ends_literal(
                #[trigger] c.text[k],
                QuoteState::initial(),
                path_rules(),
            ),
        d.at_end() || d.newline() > 0 || d.sees(' ') || d.sees(':') || d.sees('|'),
    ensures
        path(c).value == (EvalStringView {
            span: c.to(d),
            pieces: seq![lit_piece(c.to(d), c.text_to(d))],
        }),
        path(c).next == d,
        path(c).errors.len() == 0,
        path(c).value.text() == c.text_to(d),
{
    reveal(path);
    let q = QuoteState::initial();
    let stop = path_rules().stop;
    assert(stop[0] == ' ' && stop[1] == ':' && stop[2] == '|');
    lemma_literal_to(c, q, path_rules(), d);
    let s = eval_step(c, q, path_rules());
    assert(s.more is None && s.next == d);
    assert(s.pieces =~= seq![lit_piece(c.to(d), c.text_to(d))]);
    assert(path(c).value.pieces =~= s.pieces);
    let lit = c.text_to(d);
    assert(lit[0] == c.text[c.at]);
    assert(!ends_literal(c.text[c.at], q, path_rules()));
    reveal_strlit("$");
    reveal_strlit("|");
    reveal_strlit(":");
    lemma_one_piece_text(path(c).value, c.to(d), lit);
}

proof fn lemma_one_piece_text(v: EvalStringView, span: SpanView, lit: Seq<char>)
    requires
        v.pieces == seq![lit_piece(span, lit)],
        lit != "$"@ && lit != "|"@ && lit != ":"@,
    ensures
        v.text() == lit,
{
    reveal_with_fuel(pieces_text, 2);
    assert(v.pieces.drop_last() =~= Seq::empty());
    assert(v.pieces.last().text() == v.pieces.last().data.text());
    assert(v.pieces.last().data.text() == lit);
    assert(pieces_text(v.pieces) =~= lit);
}

/// Characters that mean nothing else are a value as they stand, up to the end of the
/// line. They are written out as they were read, but for a lone pipe or colon, which is
/// escaped.
pub proof fn law_plain_value_is_kept(c: Cursor, d: Cursor)
    requires
        c.wf(),
        c.reaches(d),
        c.at < d.at,
        forall|k: int|
            c.at <= k < d.at ==> #[trigger] c.text[k] != '$' && c.text[k] != '\r' && c.text[k]
                != '\n',
        d.newline() > 0,
    ensures
        line_value(c).value == (EvalStringView {
            span: c.to(d.skip(d.newline())),
            pieces: seq![lit_piece(c.to(d), c.text_to(d))],
        }),
        line_value(c).next == d.skip(d.newline()),
        line_value(c).errors.len() == 0,
        c.text_to(d) != "|"@ && c.text_to(d) != ":"@ ==> line_value(c).value.text() == c.text_to(d),
        c.text_to(d) == "|"@ || c.text_to(d) == ":"@ ==> line_value(c).value.text() == "$"@
            + c.text_to(d),
{
    reveal(line_value);
    let q = QuoteState::initial();
    lemma_literal_to(c, q, line_rules(), d);
    let s = eval_step(c, q, line_rules());
    assert(s.more is None && s.next == d.skip(d.newline()));
    let lit = c.text_to(d);
    assert(s.pieces =~= seq![lit_piece(c.to(d), lit)]);
    let v = line_value(c).value;
    assert(v.pieces =~= s.pieces);
    assert(lit[0] == c.text[c.at]);
    reveal_strlit("$");
    if lit == "|"@ || lit == ":"@ {
        reveal_with_fuel(pieces_text, 2);
        assert(v.pieces.drop_last() =~= Seq::empty());
        assert(v.pieces.last().text() == v.pieces.last().data.text());
        assert(v.pieces.last().data.text() == "$"@ + lit);
        assert(pieces_text(v.pieces) =~= "$"@ + lit);
    } else {
        lemma_one_piece_text(v, c.to(d), lit);
    }
}

/// An assignment of plain characters, with a space on each side of the equals sign, is
/// written out as it was read.
pub proof fn law_plain_assignment_is_written_as_read(c: Cursor, d: Cursor, e: Cursor)
    requires
        c.wf(),
        c.reaches(d),
        d.skip(3).reaches(e),
        c.at < d.at,
        d.at + 3 < e.at,
        forall|k: int| c.at <= k < d.at ==> name_char(#[trigger] c.text[k], false),
        d.sees(' ') && d.skip(1).sees('=') && d.skip(2).sees(' ') && !d.skip(3).sees(' '),
        forall|k: int|
            d.at + 3 <= k < e.at ==> #[trigger] c.text[k] != '$' && c.text[k] != '\r' && c.text[k]
                != '\n',
        d.skip(3).text_to(e) != "|"@ && d.skip(3).text_to(e) != ":"@,
        e.sees('\n'),
    ensures
        ({
            let (name, next) = varname(c, false);
            let l = let_stmt(next, name);
            &&& l.value.text() == c.text_to(e.skip(1))
            &&& l.next == e.skip(1)
            &&& l.errors.len() == 0
        }),
{
    let (name, next) = varname(c, false);
    let v = d.skip(3);
    assert forall|k: int| c.at <= k < d.at implies name_chars(false)(#[trigger] c.text[k]) by {
        assert(name_char(c.text[k], false));
    }
    lemma_scan_is(c, name_chars(false), d);
    lemma_invalid_name(c, false);
    assert(next == d && name.valid());
    reveal(let_stmt);
    assert(whitespace(d).next == d.skip(1) && whitespace(d).errors.len() == 0) by {
        reveal(whitespace);
        reveal_with_fuel(blanks, 2);
    }
    assert(blanks(d.skip(2)) == v) by {
        assert(c.text[v.at] != '$');
        reveal_with_fuel(blanks, 2);
    }
    law_plain_value_is_kept(v, e);
    assert(c.text[c.at] == c.text_to(d)[0]);
    assert(name_char(c.text[c.at], false));
    reveal_strlit("@");
    reveal_strlit("!");
    reveal_strlit(" = ");
    reveal_strlit("\n");
    assert(" = "@ =~= d.text_to(v));
    assert("\n"@ =~= e.text_to(e.skip(1)));
    assert(let_stmt(next, name).value.text() =~= c.text_to(e.skip(1)));
}

/// Where there is no path, nothing but white space is read, and nothing else is wrong.
pub proof fn law_no_path_reads_only_white_space(c: Cursor)
    requires
        c.wf(),
        paths(c).value.len() == 0,
    ensures
        paths(c).next == whitespace(c).next,
        paths(c).errors == whitespace(c).errors,
{
    reveal(paths);
    let d = whitespace(c).next;
    lemma_whitespace(c);
    law_white_space_is_read_at_once(c);
    lemma_path(d);
    lemma_whitespace(path(d).next);
    if path(d).value.pieces.len() > 0 {
        assert(paths_from(d).value.len() > 0);
    }
    lemma_no_path(c);
    assert(whitespace(c).errors + (path(d).errors + whitespace(d).errors)
        =~= whitespace(c).errors);
}

proof fn lemma_no_path(c: Cursor)
    requires
        c.wf(),
        path(whitespace(c).next).value.pieces.len() == 0,
    ensures
        path(whitespace(c).next).next == whitespace(c).next,
        path(whitespace(c).next).errors.len() == 0,
{
    reveal(whitespace);
    reveal(path);
    lemma_skip_white(c);
    lemma_skip_white_end(c);
    let d = skip_white(c).0;
    let q = QuoteState::initial();
    let rules = path_rules();
    let (e, r) = literal(d, q, rules);
    lemma_literal(d, q, rules);
    let s = eval_step(d, q, rules);
    lemma_eval_step(d, q, rules);
    assert(eval_string(d, rules).value.pieces == eval_from(d, q, rules).pieces);
    assert(s.pieces.len() == 0);
    assert(e == d);
    if d.newline() == 0 && d.sees('$') {
        lemma_blanks(d.skip(1 + d.skip(1).newline()));
        assert(quoted(d, r).pieces.len() <= 1);
        assert(expansion(d, r, false).pieces.len() == 1);
        assert(dollar(d, r, false).pieces.len() == 1);
    }
}

// ---------------------------------------------------------------------- layout

/// A comment goes on to the end of its line. Only the end of the text can leave it
/// without a line break.
pub proof fn law_comment_ends_with_its_line(c: Cursor)
    requires
        c.wf(),
        at_comment(c),
        comment(c).errors.len() > 0,
    ensures
        comment(c).next.at_end(),
{
    let d = scan(c, is_space());
    lemma_scan(c, is_space());
    let e = scan(d.skip(1), in_line());
    lemma_scan(d.skip(1), in_line());
    lemma_blank_lines(e.skip(e.newline()));
}

/// The blank lines ahead hold nothing but a line feed each.
pub open spec fn bare_lines(c: Cursor) -> bool {
    blank_lines(c).1.at - c.at == blank_lines(c).0
}

/// The blank lines between and behind the comments ahead hold nothing but a line feed
/// each.
pub open spec fn bare_comments(c: Cursor) -> bool
    decreases c.left(),
{
    let e = scan(scan(c, is_space()).skip(1), in_line());
    let next = comment(c).next;
    at_comment(c) && c.advances(next) && !c.at_end() ==> bare_lines(e.skip(e.newline()))
        && bare_comments(next)
}

proof fn lemma_bare_lines(c: Cursor)
    requires
        c.wf(),
        bare_lines(c),
    ensures
        c.text_to(blank_lines(c).1) == repeated('\n', blank_lines(c).0),
    decreases c.left(),
{
    let d = scan(c, is_space());
    lemma_scan(c, is_space());
    lemma_blank_lines(c);
    if d.newline() > 0 {
        let next = d.skip(d.newline());
        lemma_blank_lines(next);
        lemma_bare_lines(next);
        let end = blank_lines(next).1;
        assert(c.text_to(end) =~= seq!['\n'] + next.text_to(end));
        assert(repeated('\n', blank_lines(c).0) =~= seq!['\n'] + repeated(
            '\n',
            blank_lines(next).0,
        ));
    } else {
        assert(c.text_to(c) =~= repeated('\n', 0));
    }
}

proof fn lemma_comments_text_add(k: CommentView, rest: Seq<CommentView>)
    ensures
        comments_text(seq![k] + rest) == k.text() + comments_text(rest),
    decreases rest.len(),
{
    let all = seq![k] + rest;
    assert(all.last() == (if rest.len() == 0 {
        k
    } else {
        rest.last()
    }));
    if rest.len() == 0 {
        assert(all.drop_last() =~= rest);
        assert(comments_text(rest) =~= Seq::empty());
        assert(comments_text(all) =~= k.text() + comments_text(rest));
    } else {
        assert(all.drop_last() =~= seq![k] + rest.drop_last());
        lemma_comments_text_add(k, rest.drop_last());
        assert(comments_text(all) =~= k.text() + comments_text(rest));
    }
}

proof fn lemma_bare_comments(c: Cursor)
    requires
        c.wf(),
        bare_comments(c),
        comments(c).errors.len() == 0,
    ensures
        comments_text(comments(c).value) == c.text_to(comments(c).next),
    decreases c.left(),
{
    if at_comment(c) {
        let d = scan(c, is_space());
        lemma_scan(c, is_space());
        let e = scan(d.skip(1), in_line());
        lemma_scan(d.skip(1), in_line());
        let f = e.skip(e.newline());
        let k = comment(c);
        lemma_comment(c);
        assert(k.errors.len() == 0);
        assert(e.newline() == 1);
        lemma_blank_lines(f);
        lemma_bare_lines(f);
        assert(k.value.text() =~= c.text_to(e) + seq!['\n'] + f.text_to(k.next));
        assert(k.value.text() =~= c.text_to(k.next));
        let rest = comments(k.next);
        lemma_comments(k.next);
        lemma_bare_comments(k.next);
        lemma_comments_text_add(k.value, rest.value);
        assert(c.text_to(rest.next) =~= c.text_to(k.next) + k.next.text_to(rest.next));
    } else {
        assert(c.text_to(c) =~= Seq::empty());
    }
}

/// Blank lines and comments are written out as they were read, where the blank lines
/// hold nothing but a line feed each and the last comment ends with its line.
pub proof fn law_filler_is_written_as_read(c: Cursor)
    requires
        c.wf(),
        bare_lines(c),
        bare_comments(blank_lines(c).1),
        filler(c).errors.len() == 0,
    ensures
        filler(c).value.text() == c.text_to(filler(c).next),
{
    reveal(filler);
    let d = blank_lines(c).1;
    lemma_blank_lines(c);
    lemma_bare_lines(c);
    lemma_comments(d);
    lemma_bare_comments(d);
    assert(c.text_to(comments(d).next) =~= c.text_to(d) + d.text_to(comments(d).next));
}

/// The bindings of a statement are the lines that are indented by more than it is, and
/// the next statement is not.
pub proof fn law_bindings_are_indented(
    c: Cursor,
    kind: BlockKind,
    base: int,
    while_parsing: SpanView,
)
    requires
        c.wf(),
        base >= 0,
    ensures
        ({
            let b = block(c, kind, base, while_parsing);
            &&& forall|i: int|
                0 <= i < b.bindings.len() ==> (#[trigger] b.bindings[i]).1.indent_span.len() > base
            &&& b.indent.len() <= base
        }),
    decreases c.left(),
{
    let f = filler(c);
    let w = whitespace(f.next);
    lemma_filler(c);
    lemma_whitespace(f.next);
    if w.value.len() > base {
        let b = binding(w.next, kind, while_parsing).0;
        lemma_binding(w.next, kind, while_parsing);
        law_bindings_are_indented(b.next, kind, base, while_parsing);
    }
}

/// The body of a `for` is made of the statements that are indented by more than it is,
/// and the next statement is not.
pub proof fn law_body_is_indented(c: Cursor, base: int, before: FillerView, indent: SpanView)
    requires
        c.wf(),
        base >= 0,
        indent.forward(),
    ensures
        ({
            let b = for_body(c, base, before, indent);
            &&& forall|i: int|
                0 <= i < b.value.len() ==> (#[trigger] b.value[i]).indent_span.len() > base
            &&& b.indent.len() <= base
        }),
    decreases c.left(),
{
    lemma_for_body(c, base, before, indent);
    if indent.len() > base {
        let i = item(c, indent.len());
        lemma_item(c, indent.len());
        if c.advances(i.next) {
            law_body_is_indented(i.next, base, i.filler, i.indent);
        }
    }
}

// ----------------------------------------------------------------------- words

/// The state behind the plain characters of `s`.
pub open spec fn quotes_after(q: QuoteState, s: Seq<char>) -> QuoteState
    decreases s.len(),
{
    if s.len() == 0 {
        q
    } else {
        quotes_after(q.after(s[0]), s.skip(1))
    }
}

proof fn lemma_quotes_agree(w: WordScan, q: QuoteState)
    requires
        q.mode == w.mode,
        q.blank == w.blank,
        !q.escape,
    ensures
        ({
            let end = w.end();
            let n = w.rest.len() - end.rest.len();
            let r = quotes_after(q, w.rest.take(n));
            &&& 0 <= n <= w.rest.len()
            &&& end.rest == w.rest.skip(n)
            &&& r.mode == end.mode
            &&& !r.escape ==> r.blank == end.blank
        }),
    decreases w.rest.len(),
{
    if w.rest.len() == 0 {
        assert(w.rest.skip(0) =~= w.rest);
        assert(w.rest.take(0) =~= Seq::<char>::empty());
    } else {
        let (w2, more) = w.step();
        let end = w.end();
        let k = w.rest.len() - w2.rest.len();
        let m = w2.rest.len() - end.rest.len();
        let n = k + m;
        let q1 = q.after(w.rest[0]);
        let q2 = if k == 2 {
            q1.after(w.rest[1])
        } else {
            q1
        };
        if more && !q2.escape {
            lemma_quotes_agree(w2, q2);
        } else {
            // The word ends here, or the text does, with a backslash.
            assert(end == w2);
            assert(w2.rest.skip(0) =~= w2.rest);
            assert(w2.rest.take(0) =~= Seq::<char>::empty());
        }
        assert(w2.rest.skip(m) =~= w.rest.skip(n));
        assert(w.rest.take(n)[0] == w.rest[0]);
        assert(w.rest.take(n).skip(1) =~= w.rest.skip(1).take(n - 1));
        if k == 2 {
            assert(w.rest.take(n).skip(1)[0] == w.rest[1]);
            assert(w.rest.take(n).skip(1).skip(1) =~= w2.rest.take(m));
            reveal_with_fuel(quotes_after, 3);
        } else {
            assert(w.rest.take(n).skip(1) =~= w2.rest.take(m));
            reveal_with_fuel(quotes_after, 2);
        }
    }
}

/// The parser minds quotes as the words of a list do: at the end of a word, both are
/// inside the same quotes, and both or neither stand behind a character that parts
/// words, unless the text ends with a backslash.
pub proof fn law_quotes_of_texts_are_those_of_lists(s: Seq<char>)
    ensures
        ({
            let end = WordScan::begin(s).end();
            let read = s.take(s.len() - end.rest.len());
            let q = quotes_after(QuoteState::initial(), read);
            &&& q.mode == end.mode
            &&& !q.escape ==> q.blank == end.blank
        }),
{
    lemma_quotes_agree(WordScan::begin(s), QuoteState::initial());
}

/// Reading a word moves on, and stops inside quotes only at the end of the text.
pub proof fn law_word_moves_on(s: Seq<char>)
    ensures
        ({
            let end = WordScan::begin(s).end();
            &&& s.len() > 0 ==> end.rest.len() < s.len()
            &&& end.mode != QuoteMode::Unquoted ==> end.rest.len() == 0
        }),
{
    lemma_word_end(WordScan::begin(s));
}

proof fn lemma_word_end(w: WordScan)
    ensures
        w.rest.len() > 0 ==> w.end().rest.len() < w.rest.len(),
        w.end().mode != QuoteMode::Unquoted ==> w.end().rest.len() == 0,
    decreases w.rest.len(),
{
    if w.rest.len() > 0 && w.step().1 {
        lemma_word_end(w.step().0);
    }
}

/// Where nothing is left to read, a list gives an empty word, and nothing is left still.
pub proof fn law_exhausted_list_gives_empty_words(s: Seq<char>)
    requires
        s.len() == 0,
    ensures
        ({
            let end = WordScan::begin(s).end();
            end.blank && end.word.len() == 0 && end.rest == s && end.mode == QuoteMode::Unquoted
        }),
{
}

/// Characters that part words mean nothing before a word.
pub proof fn law_blanks_before_a_word_are_dropped(ch: char, s: Seq<char>)
    requires
        parts_words(ch),
    ensures
        WordScan::begin(seq![ch] + s).end() == WordScan::begin(s).end(),
{
    assert((seq![ch] + s).skip(1) =~= s);
}

/// A character that stands for itself outside quotes.
pub open spec fn plain_char(ch: char) -> bool {
    !parts_words(ch) && ch != '\\' && ch != '\'' && ch != '"'
}

proof fn lemma_plain_run(w: WordScan, word: Seq<char>, ch: char, rest: Seq<char>)
    requires
        w.mode == QuoteMode::Unquoted,
        w.rest == word + seq![ch] + rest,
        word.len() > 0 || !w.blank,
        parts_words(ch),
        forall|k: int| 0 <= k < word.len() ==> plain_char(#[trigger] word[k]),
    ensures
        w.end() == (WordScan {
            word: w.word + word,
            blank: true,
            mode: QuoteMode::Unquoted,
            rest,
        }),
    decreases word.len(),
{
    if word.len() == 0 {
        assert(w.rest[0] == ch);
        assert(w.rest.skip(1) =~= rest);
        assert(w.word + word =~= w.word);
    } else {
        let tail = word.skip(1);
        assert(w.rest[0] == word[0]);
        assert(plain_char(word[0]));
        assert forall|k: int| 0 <= k < tail.len() implies plain_char(#[trigger] tail[k]) by {
            assert(tail[k] == word[k + 1]);
        }
        let w2 = w.read(1, seq![word[0]], QuoteMode::Unquoted);
        assert(w.step() == (w2, true));
        assert(w2.rest =~= tail + seq![ch] + rest);
        lemma_plain_run(w2, tail, ch, rest);
        assert(w2.word + tail =~= w.word + word);
    }
}

/// A word of plain characters is given as it stands, and the list goes on behind the
/// character that parts it from the next.
pub proof fn law_plain_word_is_kept(word: Seq<char>, ch: char, rest: Seq<char>)
    requires
        word.len() > 0,
        parts_words(ch),
        forall|k: int| 0 <= k < word.len() ==> plain_char(#[trigger] word[k]),
    ensures
        WordScan::begin(word + seq![ch] + rest).end() == (WordScan {
            word,
            blank: true,
            mode: QuoteMode::Unquoted,
            rest,
        }),
{
    lemma_plain_run(WordScan::begin(word + seq![ch] + rest), word, ch, rest);
    assert(Seq::<char>::empty() + word =~= word);
}

proof fn lemma_single_run(w: WordScan, word: Seq<char>, rest: Seq<char>)
    requires
        w.mode == QuoteMode::SingleQuoted,
        !w.blank,
        w.rest == word + seq!['\''] + rest,
        forall|k: int| 0 <= k < word.len() ==> #[trigger] word[k] != '\'',
    ensures
        w.end() == (WordScan {
            word: w.word + word,
            blank: false,
            mode: QuoteMode::Unquoted,
            rest,
        }).end(),
    decreases word.len(),
{
    if word.len() == 0 {
        assert(w.rest[0] == '\'');
        assert(w.rest.skip(1) =~= rest);
        assert(w.word + seq![] =~= w.word);
        assert(w.word + word =~= w.word);
    } else {
        let tail = word.skip(1);
        assert(w.rest[0] == word[0]);
        assert forall|k: int| 0 <= k < tail.len() implies #[trigger] tail[k] != '\'' by {
            assert(tail[k] == word[k + 1]);
        }
        let w2 = w.read(1, seq![word[0]], QuoteMode::SingleQuoted);
        assert(w.step() == (w2, true));
        assert(w2.rest =~= tail + seq!['\''] + rest);
        lemma_single_run(w2, tail, rest);
        assert(w2.word + tail =~= w.word + word);
    }
}

/// A word in single quotes is given as it stands between them, whatever it holds.
pub proof fn law_single_quotes_keep_all(word: Seq<char>, ch: char, rest: Seq<char>)
    requires
        parts_words(ch),
        forall|k: int| 0 <= k < word.len() ==> #[trigger] word[k] != '\'',
    ensures
        WordScan::begin(seq!['\''] + word + seq!['\'', ch] + rest).end() == (WordScan {
            word,
            blank: true,
            mode: QuoteMode::Unquoted,
            rest,
        }),
{
    let s = seq!['\''] + word + seq!['\'', ch] + rest;
    let w = WordScan::begin(s);
    let w2 = w.read(1, seq![], QuoteMode::SingleQuoted);
    assert(s[0] == '\'');
    assert(w.step() == (w2, true));
    assert(w2.rest =~= word + seq!['\''] + (seq![ch] + rest));
    lemma_single_run(w2, word, seq![ch] + rest);
    assert(w2.word + word =~= word);
    assert((seq![ch] + rest).skip(1) =~= rest);
}

} // verus!
