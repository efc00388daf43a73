//! What holds of numbers, offsets, ranges, names and lines.

use vstd::prelude::*;

use crate::code::{pos_text, Cursor, SpanView};
use crate::error::{
    missing_depth_error, quoted_expansion_error, quotes_error, unexpected_variable_error,
    AnnotationKind,
};
use crate::grammar::{
    eval_string, in_line, is_space, lemma_scan_is, name_chars, scan, varname, whitespace, EvalRules,
};
use crate::laws::law_white_space_is_read_at_once;
use crate::plain::{
    ahead, break_len, law_characters_of_names, lemma_ahead, lemma_peek, name_code, spaces,
};
use crate::progress::{lemma_invalid_name, lemma_varname};
use crate::run::null_message;
use crate::stmt::ItemView;
use crate::syntax::{
    at_comment, blank_lines, build_stmt, comment, default_stmt, filler, item, paths, pool_stmt,
    rule_stmt, simple_item,
};
use crate::text::{decimal, digit, lemma_offset_step, lemma_offset_zero, offset_of, width};

verus! {

// --------------------------------------------------------------------- numbers

/// The number that decimal digits stand for.
pub open spec fn number_of(s: Seq<char>) -> int
    decreases s.len(),
{
    if s.len() == 0 {
        0
    } else {
        number_of(s.drop_last()) * 10 + (s.last() as int - 0x30)
    }
}

/// A number is written in decimal digits, which stand for it. The first of them is no
/// zero, unless it is the only one.
pub proof fn law_numbers_are_decimal(n: nat)
    ensures
        decimal(n).len() > 0,
        forall|i: int|
            0 <= i < decimal(n).len() ==> 0x30 <= #[trigger] decimal(n)[i] as int <= 0x39,
        number_of(decimal(n)) == n,
        decimal(n).len() > 1 ==> decimal(n)[0] as int != 0x30,
    decreases n,
{
    let s = decimal(n);
    lemma_digit(n % 10);
    if n < 10 {
        assert(s.drop_last() =~= seq![]);
        assert(number_of(s.drop_last()) == 0);
        lemma_digit(n);
    } else {
        law_numbers_are_decimal(n / 10);
        assert(s.drop_last() =~= decimal(n / 10));
        assert(s[0] == decimal(n / 10)[0]);
        if n / 10 < 10 {
            lemma_digit(n / 10);
        } else {
            law_numbers_are_decimal(n / 10 / 10);
            assert(decimal(n / 10).len() > 1);
        }
    }
}

proof fn lemma_digit(d: nat)
    requires
        d < 10,
    ensures
        digit(d) as int == 0x30 + d,
{
}

/// Places and ranges are shown by their offsets.
pub proof fn law_places_are_shown_by_their_offsets(s: SpanView)
    ensures
        s.text() == seq!['S', 'p', 'a', 'n', '('] + decimal(s.start) + seq!['.', '.'] + decimal(
            s.end,
        ) + seq![')'],
        pos_text(s.start) == seq!['P', 'o', 's', '('] + decimal(s.start) + seq![')'],
{
    reveal_strlit("Span(");
    reveal_strlit("..");
    reveal_strlit(")");
    reveal_strlit("Pos(");
    assert("Span("@ =~= seq!['S', 'p', 'a', 'n', '(']);
    assert(".."@ =~= seq!['.', '.']);
    assert(")"@ =~= seq![')']);
    assert("Pos("@ =~= seq!['P', 'o', 's', '(']);
}

// --------------------------------------------------------------------- offsets

/// The offset of a place counts the bytes before it: those of a character are one, two,
/// three or four, by its code.
pub proof fn law_offsets_count_bytes(text: Seq<char>, at: int)
    requires
        0 <= at < text.len(),
    ensures
        offset_of(text, 0) == 0,
        ({
            let n = text[at] as u32;
            offset_of(text, at + 1) - offset_of(text, at) == (if n < 0x80 {
                1int
            } else if n < 0x800 {
                2
            } else if n < 0x10000 {
                3
            } else {
                4
            })
        }),
{
    lemma_offset_zero(text);
    lemma_offset_step(text, at);
    lemma_width_of(text[at]);
}

proof fn lemma_width_of(ch: char)
    ensures
        width(ch) == (if (ch as u32) < 0x80 {
            1int
        } else if (ch as u32) < 0x800 {
            2
        } else if (ch as u32) < 0x10000 {
            3
        } else {
            4
        }),
{
}

/// The join of two ranges covers both of them, and any range that does covers it.
pub proof fn law_join_is_the_smallest_cover(a: SpanView, b: SpanView, c: SpanView)
    ensures
        ({
            let j = a.join(b);
            &&& j.start <= a.start && j.start <= b.start
            &&& j.end >= a.end && j.end >= b.end
            &&& c.start <= a.start && c.start <= b.start && c.end >= a.end && c.end >= b.end
                ==> c.start <= j.start && j.end <= c.end
            &&& b.join(a) == j
            &&& a.join(a) == a
        }),
        a.forward() <==> a.len() >= 0,
        a.start + a.len() == a.end,
{
}

// ----------------------------------------------------------------------- lines

/// A line break is a line feed, alone or behind a carriage return.
pub proof fn law_line_breaks(c: Cursor)
    requires
        c.wf(),
    ensures
        c.newline() == break_len(c.rest()),
{
    lemma_peek(c, c.rest());
}

/// A line that holds nothing but spaces: how many of them, and whether a carriage return
/// stands before its line feed.
pub struct Blank {
    pub spaces: nat,
    pub cr: bool,
}

pub open spec fn blank_text(b: Blank) -> Seq<char> {
    spaces(b.spaces) + (if b.cr {
        seq!['\r', '\n']
    } else {
        seq!['\n']
    })
}

pub open spec fn blanks_text(s: Seq<Blank>) -> Seq<char>
    decreases s.len(),
{
    if s.len() == 0 {
        seq![]
    } else {
        blank_text(s[0]) + blanks_text(s.skip(1))
    }
}

proof fn lemma_spaces_scan(c: Cursor, k: nat, tail: Seq<char>)
    requires
        ahead(c, spaces(k) + tail),
        tail.len() > 0 ==> tail[0] != ' ',
    ensures
        scan(c, is_space()) == c.skip(k as int),
        ahead(c.skip(k as int), tail),
{
    lemma_ahead(c, spaces(k), tail);
    let d = c.skip(k as int);
    lemma_peek(d, tail);
    assert forall|j: int| c.at <= j < d.at implies is_space()(#[trigger] c.text[j]) by {
        assert(c.text[c.at + (j - c.at)] == spaces(k)[j - c.at]);
    }
    lemma_scan_is(c, is_space(), d);
}

/// The lines that hold nothing but spaces are counted, up to the first that holds more.
pub proof fn law_blank_lines_are_counted(c: Cursor, s: Seq<Blank>, k: nat, tail: Seq<char>)
    requires
        c.wf(),
        c.rest() == blanks_text(s) + (spaces(k) + tail),
        break_len(tail) == 0,
        tail.len() > 0 ==> tail[0] != ' ',
    ensures
        blank_lines(c).0 == s.len(),
        blank_lines(c).1.rest() == spaces(k) + tail,
    decreases s.len(),
{
    let end = spaces(k) + tail;
    if s.len() == 0 {
        assert(blanks_text(s) + end =~= end);
        lemma_spaces_scan(c, k, tail);
        let d = c.skip(k as int);
        law_line_breaks(d);
    } else {
        let b = s[0];
        let rest = blanks_text(s.skip(1)) + end;
        let feed = if b.cr {
            seq!['\r', '\n']
        } else {
            seq!['\n']
        };
        assert(blanks_text(s) + end =~= spaces(b.spaces) + (feed + rest));
        lemma_spaces_scan(c, b.spaces, feed + rest);
        let d = c.skip(b.spaces as int);
        law_line_breaks(d);
        assert((feed + rest)[0] == feed[0]);
        if b.cr {
            assert((feed + rest)[1] == feed[1]);
        }
        lemma_ahead(d, feed, rest);
        assert(d.newline() == feed.len());
        let next = d.skip(d.newline());
        assert(next == d.skip(feed.len() as int));
        assert(!c.at_end()) by {
            assert(c.rest().len() > 0);
        }
        law_blank_lines_are_counted(next, s.skip(1), k, tail);
    }
}

// ----------------------------------------------------------------------- names

/// A name is missing just where no character of one stands ahead. Nothing is read then.
pub proof fn law_missing_names(c: Cursor, simple: bool)
    requires
        c.wf(),
    ensures
        ({
            let (name, next) = varname(c, simple);
            let ch = c.rest()[0];
            let named = !c.at_end() && name_code(ch) && !(simple && ch as u32 == 0x2e);
            &&& name.valid() <==> named
            &&& !named ==> next == c && name.span == c.to(c)
            &&& named ==> next.at > c.at && name.span == c.to(next) && name.name
                == c.text.subrange(c.at, next.at)
        }),
{
    lemma_varname(c, simple);
    lemma_invalid_name(c, simple);
    lemma_peek(c, c.rest());
    if !c.at_end() {
        law_characters_of_names(c.rest()[0], simple);
        crate::grammar::lemma_scan(c, name_chars(simple));
        if name_chars(simple)(c.rest()[0]) {
            assert(scan(c, name_chars(simple)) != c);
        } else {
            lemma_scan_is(c, name_chars(simple), c);
        }
    } else {
        lemma_scan_is(c, name_chars(simple), c);
    }
}

// ---------------------------------------------------------------------- ranges

/// A text with variables lies where it was read.
pub proof fn law_texts_lie_where_they_were_read(c: Cursor, rules: EvalRules)
    ensures
        ({
            let p = eval_string(c, rules);
            p.value.span.start == c.offset() && p.value.span.end == p.next.offset()
        }),
{
}

/// Filler lies where it was read, and so does a comment, whose range runs backwards.
pub proof fn law_filler_lies_where_it_was_read(c: Cursor)
    requires
        c.wf(),
    ensures
        filler(c).value.span.start == c.offset(),
        filler(c).value.span.end == filler(c).next.offset(),
        at_comment(c) ==> comment(c).value.text_span.end == c.offset(),
        at_comment(c) ==> comment(c).value.text_span.start == c.skip(
            comment(c).value.text.len() as int,
        ).offset(),
{
    reveal(filler);
    let d = scan(c, is_space());
    crate::grammar::lemma_scan(c, is_space());
    if d.skip(1).wf() {
        crate::grammar::lemma_scan(d.skip(1), in_line());
        let e = scan(d.skip(1), in_line());
        assert(c.text_to(e).len() == e.at - c.at);
        assert(c.skip(c.text_to(e).len() as int) == e);
    }
}

/// The range of a statement is that of the word that it begins with.
pub proof fn law_statements_lie_at_their_words(c: Cursor, n: int)
    requires
        c.wf(),
    ensures
        ({
            let (name, next) = varname(c, false);
            match item(c, n).value {
                ItemView::Let(s) => s.var == name,
                ItemView::Rule(s) => s.rule_span == c.to(next) && name.name == "rule"@,
                ItemView::Build(s) => s.build_span == c.to(next) && name.name == "build"@,
                ItemView::Default(s) => s.default_span == c.to(next) && name.name == "default"@,
                ItemView::Pool(s) => s.pool_span == c.to(next) && name.name == "pool"@,
                ItemView::For(s) => s.for_span == c.to(next) && name.name == "for"@,
            }
        }),
{
    reveal(simple_item);
    reveal(rule_stmt);
    reveal(build_stmt);
    reveal(default_stmt);
    reveal(pool_stmt);
    reveal(crate::syntax::let_stmt);
    law_missing_names(c, false);
    lemma_varname(c, false);
    let (name, next) = varname(c, false);
    reveal_strlit("<invalid-name>");
    reveal_strlit("rule");
    reveal_strlit("build");
    reveal_strlit("default");
    reveal_strlit("pool");
    reveal_strlit("for");
    if !name.valid() {
        assert("<invalid-name>"@.len() == 14);
        assert("rule"@.len() == 4 && "build"@.len() == 5 && "default"@.len() == 7);
        assert("pool"@.len() == 4 && "for"@.len() == 3);
    }
    if name.name == "for"@ {
        crate::progress::lemma_for_word(c);
    }
}

// ----------------------------------------------------------------------- paths

/// White space before paths makes no difference to them.
pub proof fn law_white_space_before_paths(c: Cursor)
    requires
        c.wf(),
    ensures
        paths(c).value == paths(whitespace(c).next).value,
        paths(c).next == paths(whitespace(c).next).next,
{
    reveal(paths);
    law_white_space_is_read_at_once(c);
}

// -------------------------------------------------------------------- messages

/// A source that is not read is named.
pub proof fn law_unread_sources_are_named(path: Seq<char>)
    ensures
        null_message(path) == "Null bytes are not supported (file: "@ + path + seq![')'],
{
    reveal_strlit(")");
    assert(")"@ =~= seq![')']);
}

/// What the errors of all sorts consist of.
pub proof fn law_errors_point_at_their_places(
    title: Seq<char>,
    label: Seq<char>,
    a: SpanView,
    b: SpanView,
    c: SpanView,
)
    ensures
        ({
            let e = quoted_expansion_error(a);
            &&& e.title == "cannot expand inside quotes"@
            &&& e.marks.len() == 1
            &&& e.marks[0].kind == AnnotationKind::Primary
            &&& e.marks[0].span == a
            &&& e.marks[0].label == "here"@
            &&& e.help == Some("the variable may contain quotes which will corrupt quoting"@)
            &&& e.info is None
            &&& e.edits is None
        }),
        ({
            let e = quotes_error(a, b);
            &&& e.marks.len() == 2
            &&& e.marks[0].kind == AnnotationKind::Primary
            &&& e.marks[0].span == a
            &&& e.marks[0].label == "here"@
            &&& e.marks[1].kind == AnnotationKind::Primary
            &&& e.marks[1].span == b
            &&& e.marks[1].label == "and here"@
            &&& e.help == Some("try applying the following change"@)
            &&& e.info is None
        }),
        ({
            let e = unexpected_variable_error(title, a, b, label);
            &&& e.marks.len() == 2
            &&& e.marks[0].kind == AnnotationKind::Context
            &&& e.marks[0].span == a
            &&& e.marks[0].label == "while parsing"@
            &&& e.marks[1].kind == AnnotationKind::Primary
            &&& e.marks[1].span == b
            &&& e.marks[1].label == "here"@
            &&& e.info == Some(label)
            &&& e.help is None
        }),
        ({
            let e = missing_depth_error(a, b, c);
            &&& e.marks.len() == 2
            &&& e.marks[0].kind == AnnotationKind::Context
            &&& e.marks[0].span == a
            &&& e.marks[0].label == "while parsing"@
            &&& e.marks[1].kind == AnnotationKind::Primary
            &&& e.marks[1].span == b
            &&& e.marks[1].label == "here"@
            &&& e.info == Some("pools require a 'depth' variable binding"@)
            &&& e.help == Some("try the following change"@)
        }),
{
    reveal(quoted_expansion_error);
    reveal(quotes_error);
    reveal(unexpected_variable_error);
    reveal(missing_depth_error);
}

} // verus!
