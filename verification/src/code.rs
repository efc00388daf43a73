//! Source text, places in it, and the cursor that reads it.

use vstd::prelude::*;
use vstd::string::StringExecFns;
use vstd::utf8::*;

use crate::text::{
    byte_len, char_width, decimal, first_char, lemma_boundary_offset, lemma_encode_concat,
    lemma_offset_add, lemma_offset_boundary, lemma_offset_grows, lemma_offset_split,
    lemma_offset_step, lemma_offset_zero, offset_of, split_text, width, write_decimal,
};

verus! {

/// A half-open range of byte offsets.
pub struct SpanView {
    pub start: nat,
    pub end: nat,
}

impl SpanView {
    /// The range does not run backwards.
    pub open spec fn forward(self) -> bool {
        self.start <= self.end
    }

    pub open spec fn len(self) -> int {
        self.end - self.start
    }

    /// The smallest range that covers both, where both run forwards.
    pub open spec fn join(self, other: SpanView) -> SpanView {
        SpanView {
            start: if self.start <= other.start { self.start } else { other.start },
            end: if self.end >= other.end { self.end } else { other.end },
        }
    }
}

impl SpanView {
    /// The range as it is shown in a trace.
    pub open spec fn text(self) -> Seq<char> {
        "Span("@ + decimal(self.start) + ".."@ + decimal(self.end) + ")"@
    }
}

/// A place between two characters of a text.
pub struct Cursor {
    pub text: Seq<char>,
    pub at: int,
}

impl Cursor {
    pub open spec fn wf(self) -> bool {
        0 <= self.at <= self.text.len()
    }

    /// How many characters lie ahead.
    pub open spec fn left(self) -> nat {
        if self.at <= self.text.len() {
            (self.text.len() - self.at) as nat
        } else {
            0
        }
    }

    pub open spec fn at_end(self) -> bool {
        self.at >= self.text.len()
    }

    /// The text ahead.
    pub open spec fn rest(self) -> Seq<char> {
        self.text.skip(self.at)
    }

    /// The character ahead.
    pub open spec fn peek(self) -> Option<char> {
        if self.at < self.text.len() {
            Some(self.text[self.at])
        } else {
            None
        }
    }

    /// Whether `ch` is the character ahead.
    pub open spec fn sees(self, ch: char) -> bool {
        self.peek() == Some(ch)
    }

    /// Whether the text ahead begins with `s`.
    pub open spec fn sees_text(self, s: Seq<char>) -> bool {
        self.at + s.len() <= self.text.len() && self.text.subrange(
            self.at,
            self.at + s.len(),
        ) == s
    }

    /// The place `n` characters further on.
    pub open spec fn skip(self, n: int) -> Cursor {
        Cursor { text: self.text, at: self.at + n }
    }

    /// The byte offset of this place.
    pub open spec fn offset(self) -> nat {
        offset_of(self.text, self.at)
    }

    /// The range from this place to `end`.
    pub open spec fn to(self, end: Cursor) -> SpanView {
        SpanView { start: self.offset(), end: end.offset() }
    }

    /// The empty range at this place.
    pub open spec fn here(self) -> SpanView {
        self.to(self)
    }

    /// The text from this place to `end`.
    pub open spec fn text_to(self, end: Cursor) -> Seq<char> {
        self.text.subrange(self.at, end.at)
    }

    /// The length in characters of the line break ahead: a line feed that may follow
    /// a carriage return. Zero where there is none.
    pub open spec fn newline(self) -> int {
        if self.sees('\n') {
            1
        } else if self.sees('\r') && self.skip(1).sees('\n') {
            2
        } else {
            0
        }
    }

    /// `later` is a place in the same text, and not before this one.
    pub open spec fn reaches(self, later: Cursor) -> bool {
        later.text == self.text && self.at <= later.at <= self.text.len()
    }
}

/// How many characters at the head of `s` satisfy `p`, up to the first that does not.
pub open spec fn run(s: Seq<char>, p: spec_fn(char) -> bool) -> nat
    decreases s.len(),
{
    if s.len() > 0 && p(s[0]) {
        1 + run(s.skip(1), p)
    } else {
        0
    }
}

/// `run` is the one length at which a run of `p` ends.
pub proof fn lemma_run(s: Seq<char>, p: spec_fn(char) -> bool, n: int)
    requires
        0 <= n <= s.len(),
        forall|k: int| 0 <= k < n ==> p(#[trigger] s[k]),
        n < s.len() ==> !p(s[n]),
    ensures
        run(s, p) == n,
    decreases s.len(),
{
    if n > 0 {
        assert(p(s[0]));
        assert forall|k: int| 0 <= k < n - 1 implies p(#[trigger] s.skip(1)[k]) by {
            assert(s.skip(1)[k] == s[k + 1]);
        }
        lemma_run(s.skip(1), p, n - 1);
    }
}

/// A run covers characters of `s` that satisfy `p`, and stops at one that does not.
pub proof fn lemma_run_bounds(s: Seq<char>, p: spec_fn(char) -> bool)
    ensures
        run(s, p) <= s.len(),
        forall|k: int| 0 <= k < run(s, p) ==> p(#[trigger] s[k]),
        run(s, p) < s.len() ==> !p(s[run(s, p) as int]),
    decreases s.len(),
{
    if s.len() > 0 && p(s[0]) {
        lemma_run_bounds(s.skip(1), p);
        assert forall|k: int| 0 <= k < run(s, p) implies p(#[trigger] s[k]) by {
            if k > 0 {
                assert(p(s.skip(1)[k - 1]));
            }
        }
    }
}

/// What stands at a range of a source text.
pub trait Spanned {
    /// The range.
    spec fn span_view(&self) -> SpanView;

    #[must_use]
    fn span(&self) -> (s: Span)
        ensures
            s@ == self.span_view(),
    ;
}

/// `std::fmt::Formatter`, to which traces are written.
#[verifier::external_type_specification]
#[verifier::external_body]
pub struct ExFormatter<'a>(std::fmt::Formatter<'a>);

/// `std::fmt::Error`, which says that a trace could not be written.
#[verifier::external_type_specification]
#[verifier::external_body]
pub struct ExFormatError(std::fmt::Error);

/// `Formatter::write_str`: hands `data` on to where the trace is written. Nothing is
/// claimed of it: what becomes of the text, and whether it is taken, lies with the
/// writer behind the formatter.
pub assume_specification<'a>[ std::fmt::Formatter::<'a>::write_str ](
    f: &mut std::fmt::Formatter<'a>,
    data: &str,
) -> std::fmt::Result
;

/// A byte offset in a source text.
#[derive(Clone, Copy, PartialEq, Eq, PartialOrd, Ord, Structural)]
pub struct Pos {
    offset: u32,
}

impl std::fmt::Debug for Pos {
    fn fmt(&self, f: &mut std::fmt::Formatter<'_>) -> std::fmt::Result {
        let mut out = String::new();
        Pos::fmt(self, &mut out);
        f.write_str(out.as_str())
    }
}

impl View for Pos {
    type V = nat;

    closed spec fn view(&self) -> nat {
        self.offset as nat
    }
}

impl Pos {
    fn advance_by_char(&mut self, ch: char)
        requires
            old(self)@ + width(ch) <= u32::MAX,
        ensures
            final(self)@ == old(self)@ + width(ch),
    {
        self.offset += char_width(ch) as u32;
    }

    fn advance_by_str(&mut self, s: &str)
        requires
            old(self)@ + byte_len(s@) <= u32::MAX,
        ensures
            final(self)@ == old(self)@ + byte_len(s@),
    {
        self.offset += s.len() as u32;
    }

    /// The range from here to `end`.
    #[must_use]
    pub fn to(self, end: Self) -> (s: Span)
        ensures
            s@ == (SpanView { start: self@, end: end@ }),
    {
        Span { start: self, end }
    }

    /// The range from here to where `end` begins.
    #[must_use]
    pub fn up_to(self, end: &impl Spanned) -> (s: Span)
        ensures
            s@ == (SpanView { start: self@, end: end.span_view().start }),
    {
        self.to(end.span().start())
    }

    /// The number of bytes before this place.
    #[must_use]
    pub fn offset(&self) -> (n: usize)
        ensures
            n == self@,
    {
        self.offset as usize
    }

    /// Writes the offset to `out`, as it is shown in a trace.
    pub fn fmt(&self, out: &mut String)
        ensures
            final(out)@ == old(out)@ + pos_text(self@),
    {
        let ghost before = out@;
        out.append("Pos(");
        write_decimal(self.offset(), out);
        out.append(")");
        proof {
            assert(out@ =~= before + pos_text(self@));
        }
    }
}

/// An offset as it is shown in a trace.
pub open spec fn pos_text(offset: nat) -> Seq<char> {
    "Pos("@ + decimal(offset) + ")"@
}

impl Spanned for Pos {
    open spec fn span_view(&self) -> SpanView {
        SpanView { start: self@, end: self@ }
    }

    fn span(&self) -> (s: Span) {
        self.to(*self)
    }
}

/// A range of byte offsets in a source text.
#[derive(Clone, Copy)]
pub struct Span {
    start: Pos,
    end: Pos,
}

impl std::fmt::Debug for Span {
    fn fmt(&self, f: &mut std::fmt::Formatter<'_>) -> std::fmt::Result {
        let mut out = String::new();
        Span::fmt(self, &mut out);
        f.write_str(out.as_str())
    }
}

impl View for Span {
    type V = SpanView;

    closed spec fn view(&self) -> SpanView {
        SpanView { start: self.start@, end: self.end@ }
    }
}

impl Span {
    #[must_use]
    pub fn start(&self) -> (p: Pos)
        ensures
            p@ == self@.start,
    {
        self.start
    }

    #[must_use]
    pub fn end(&self) -> (p: Pos)
        ensures
            p@ == self@.end,
    {
        self.end
    }

    /// Whether the range holds no byte. One that runs backwards holds none.
    #[must_use]
    pub fn is_empty(&self) -> (yes: bool)
        ensures
            yes == (self@.end <= self@.start),
    {
        self.end().offset() <= self.start().offset()
    }

    /// The number of bytes in the range.
    #[must_use]
    pub fn len(&self) -> (n: usize)
        requires
            self@.forward(),
        ensures
            n == self@.len(),
    {
        self.end().offset() - self.start().offset()
    }

    #[must_use]
    pub fn to_range(&self) -> (r: std::ops::Range<usize>)
        ensures
            r.start == self@.start,
            r.end == self@.end,
    {
        self.start().offset()..self.end().offset()
    }

    /// The range from the first start to the last end of the two.
    #[must_use]
    pub fn join(&self, other: impl Spanned) -> (s: Self)
        ensures
            s@ == self@.join(other.span_view()),
    {
        let other = other.span();
        let start = if self.start.offset <= other.start.offset {
            self.start
        } else {
            other.start
        };
        let end = if self.end.offset >= other.end.offset {
            self.end
        } else {
            other.end
        };
        start.to(end)
    }

    /// Writes the range to `out`, as it is shown in a trace.
    pub fn fmt(&self, out: &mut String)
        ensures
            final(out)@ == old(out)@ + self@.text(),
    {
        let ghost before = out@;
        out.append("Span(");
        write_decimal(self.start().offset(), out);
        out.append("..");
        write_decimal(self.end().offset(), out);
        out.append(")");
        proof {
            assert(out@ =~= before + self@.text());
        }
    }
}

impl Spanned for Span {
    open spec fn span_view(&self) -> SpanView {
        self@
    }

    fn span(&self) -> (s: Span) {
        *self
    }
}

/// A source text and the path that it was read from.
#[derive(Debug)]
pub struct Source {
    pub path: String,
    pub code: String,
}

impl Source {
    /// Whether all places in the text have offsets, so that a cursor can read it.
    #[must_use]
    pub fn is_addressable(&self) -> (yes: bool)
        ensures
            yes == (byte_len(self.code@) <= u32::MAX),
    {
        self.code.as_str().as_bytes().len() <= u32::MAX as usize
    }
}

/// The characters that a cursor has ahead.
#[derive(Clone, Copy)]
struct Ahead<'a> {
    text: &'a str,
}

/// `Debug::fmt` of `std::str::Chars`: shows the characters of `text` as a list. Nothing
/// is claimed of it, as of `Formatter::write_str`.
#[verifier::external_body]
fn trace_chars(text: &str, f: &mut std::fmt::Formatter<'_>) -> std::fmt::Result {
    std::fmt::Debug::fmt(&text.chars(), f)
}

impl<'a> std::fmt::Debug for Ahead<'a> {
    fn fmt(&self, f: &mut std::fmt::Formatter<'_>) -> std::fmt::Result {
        trace_chars(self.text, f)
    }
}

/// Reads a source text from its start to its end.
#[derive(Debug)]
pub struct CodeIter<'a> {
    source: &'a Source,
    pos: Pos,
    chars: Ahead<'a>,
}

impl<'a> Clone for CodeIter<'a> {
    fn clone(&self) -> (r: Self)
        ensures
            r == *self,
    {
        CodeIter { source: self.source, pos: self.pos, chars: self.chars }
    }
}

impl<'a> View for CodeIter<'a> {
    type V = Cursor;

    closed spec fn view(&self) -> Cursor {
        Cursor {
            text: self.source.code@,
            at: self.source.code@.len() - self.chars.text@.len(),
        }
    }
}

impl<'a> CodeIter<'a> {
    /// The parts agree on where in the text the cursor stands.
    pub closed spec fn agrees(&self) -> bool {
        self.chars.text@ == self@.rest()
    }

    /// The source that the cursor reads.
    pub closed spec fn reads(&self) -> Source {
        *self.source
    }

    pub open spec fn wf(&self) -> bool {
        &&& self.agrees()
        &&& self@.wf()
        &&& self@.text == self.reads().code@
        &&& byte_len(self@.text) <= u32::MAX
        &&& self.span_view() == self@.here()
    }

    /// A cursor at the start of `source`.
    #[must_use]
    pub fn new(source: &'a Source) -> (r: Self)
        requires
            byte_len(source.code@) <= u32::MAX,
        ensures
            r.wf(),
            r.reads() == *source,
            r@ == (Cursor { text: source.code@, at: 0 }),
    {
        proof {
            lemma_offset_zero(source.code@);
            assert(source.code@.skip(0) =~= source.code@);
        }
        CodeIter { source, pos: Pos { offset: 0 }, chars: Ahead { text: source.code.as_str() } }
    }

    #[must_use]
    pub fn source(&self) -> (r: &'a Source)
        ensures
            *r == self.reads(),
    {
        self.source
    }

    /// Whether the whole text has been read.
    #[must_use]
    pub fn is_empty(&self) -> (yes: bool)
        requires
            self.wf(),
        ensures
            yes == self@.at_end(),
    {
        self.as_str().is_empty()
    }

    /// The text from here to `pos`, which is empty where `pos` lies behind.
    #[must_use]
    pub fn as_str_until(&self, pos: Pos) -> (r: &'a str)
        requires
            self.wf(),
            pos@ > self@.offset() ==> is_char_boundary(
                encode_utf8(self@.rest()),
                pos@ - self@.offset(),
            ) && pos@ <= byte_len(self@.text),
        ensures
            pos@ <= self@.offset() ==> r@ == Seq::<char>::empty(),
            pos@ > self@.offset() ==> encode_utf8(r@) == encode_utf8(self@.rest()).take(
                pos@ - self@.offset(),
            ),
            forall|end: Cursor| #[trigger]
                self@.reaches(end) && pos@ == end.offset() ==> r@ == self@.text_to(end),
    {
        let n: usize = if pos.offset >= self.pos.offset {
            (pos.offset - self.pos.offset) as usize
        } else {
            0
        };
        proof {
            lemma_offset_split(self@.text, self@.at);
        }
        let ghost k = if pos@ > self@.offset() {
            lemma_boundary_offset(self@.rest(), n as int)
        } else {
            lemma_offset_zero(self@.rest());
            0int
        };
        let r = split_text(self.chars.text, n, Ghost(k)).0;
        proof {
            reveal(offset_of);
            assert(self@.rest().take(0) =~= Seq::<char>::empty());
            if pos@ > self@.offset() {
                assert(self@.rest() =~= self@.rest().take(k) + self@.rest().skip(k));
                lemma_encode_concat(self@.rest().take(k), self@.rest().skip(k));
                assert(encode_utf8(r@) =~= encode_utf8(self@.rest()).take(n as int));
            }
            assert forall|end: Cursor| #[trigger]
                self@.reaches(end) && pos@ == end.offset() implies r@ == self@.text_to(end) by {
                let j = end.at - self@.at;
                lemma_offset_add(self@.text, self@.at, j);
                lemma_offset_add(self@.text, self@.at, k);
                if j < k {
                    lemma_offset_grows(self@.rest(), j, k);
                } else {
                    lemma_offset_grows(self@.rest(), k, j);
                }
                assert(r@ =~= self@.text_to(end));
            }
        }
        r
    }

    /// The text that has not been read yet.
    #[must_use]
    pub fn as_str(&self) -> (r: &'a str)
        requires
            self.wf(),
        ensures
            r@ == self@.rest(),
    {
        self.chars.text
    }

    #[must_use]
    pub fn pos(&self) -> (p: Pos)
        requires
            self.wf(),
        ensures
            p@ == self@.offset(),
    {
        self.pos
    }

    /// The range from here to where `end` begins.
    #[must_use]
    pub fn up_to(&self, end: &impl Spanned) -> (s: Span)
        requires
            self.wf(),
        ensures
            s@ == (SpanView { start: self@.offset(), end: end.span_view().start }),
    {
        self.pos.up_to(end)
    }

    /// Reads one character.
    pub fn next_char(&mut self) -> (r: Option<char>)
        requires
            old(self).wf(),
        ensures
            final(self).wf(),
            final(self).reads() == old(self).reads(),
            r == old(self)@.peek(),
            final(self)@ == (if old(self)@.at_end() { old(self)@ } else { old(self)@.skip(1) }),
    {
        match first_char(self.chars.text) {
            None => None,
            Some(ch) => {
                let n = char_width(ch);
                proof {
                    let c = old(self)@;
                    assert(c.rest()[0] == c.text[c.at]);
                    lemma_offset_step(c.text, c.at);
                    lemma_offset_grows(c.text, c.at, c.at + 1);
                    lemma_offset_add(c.text, c.at, 1);
                    assert(c.rest().skip(1) =~= c.text.skip(c.at + 1));
                }
                let rest = split_text(self.chars.text, n, Ghost(1int)).1;
                self.pos.advance_by_char(ch);
                self.chars = Ahead { text: rest };
                Some(ch)
            },
        }
    }

    /// The character ahead.
    #[must_use]
    pub fn peek(&self) -> (r: Option<char>)
        requires
            self.wf(),
        ensures
            r == self@.peek(),
    {
        first_char(self.chars.text)
    }

    /// Reads the character ahead if `f` accepts it.
    pub fn take_char_if(&mut self, f: impl FnOnce(char) -> bool) -> (r: Option<char>)
        requires
            old(self).wf(),
            old(self)@.peek() is Some ==> call_requires(f, (old(self)@.peek()->0,)),
        ensures
            final(self).wf(),
            final(self).reads() == old(self).reads(),
            match old(self)@.peek() {
                None => r is None && final(self)@ == old(self)@,
                Some(ch) => if r is Some {
                    call_ensures(f, (ch,), true) && r == Some(ch) && final(self)@ == old(
                        self,
                    )@.skip(1)
                } else {
                    call_ensures(f, (ch,), false) && final(self)@ == old(self)@
                },
            },
    {
        match self.peek() {
            None => None,
            Some(ch) => {
                if f(ch) {
                    self.next_char()
                } else {
                    None
                }
            },
        }
    }

    /// Reads the character ahead if it is `ch`.
    pub fn take_char_matches(&mut self, ch: char) -> (yes: bool)
        requires
            old(self).wf(),
        ensures
            final(self).wf(),
            final(self).reads() == old(self).reads(),
            yes == old(self)@.sees(ch),
            final(self)@ == (if yes { old(self)@.skip(1) } else { old(self)@ }),
    {
        self.take_char_if(|ch1: char| -> (b: bool)
            ensures b == (ch1 == ch),
        { ch1 == ch }).is_some()
    }

    /// Reads characters for as long as `f` accepts them.
    pub fn take_char_while(&mut self, mut f: impl FnMut(char) -> bool) -> (r: (Span, &'a str))
        requires
            old(self).wf(),
            forall|ch: char| call_requires(f, (ch,)),
        ensures
            final(self).wf(),
            final(self).reads() == old(self).reads(),
            old(self)@.reaches(final(self)@),
            forall|k: int|
                old(self)@.at <= k < final(self)@.at ==> call_ensures(
                    f,
                    (#[trigger] old(self)@.text[k],),
                    true,
                ),
            final(self)@.at_end() || call_ensures(f, (final(self)@.peek()->0,), false),
            r.0@ == old(self)@.to(final(self)@),
            r.1@ == old(self)@.text_to(final(self)@),
    {
        let start = self.clone();
        let ghost accepts = f;
        loop
            invariant_except_break
                f == accepts,
                forall|ch: char| call_requires(f, (ch,)),
                self.wf(),
                start.wf(),
                self.reads() == start.reads(),
                start@.reaches(self@),
                forall|k: int|
                    start@.at <= k < self@.at ==> call_ensures(
                        f,
                        (#[trigger] start@.text[k],),
                        true,
                    ),
            ensures
                f == accepts,
                self.wf(),
                start.wf(),
                self.reads() == start.reads(),
                start@.reaches(self@),
                forall|k: int|
                    start@.at <= k < self@.at ==> call_ensures(
                        f,
                        (#[trigger] start@.text[k],),
                        true,
                    ),
                self@.at_end() || call_ensures(f, (self@.peek()->0,), false),
            decreases self@.left(),
        {
            match self.peek() {
                None => {
                    break;
                },
                Some(ch) => {
                    if !f(ch) {
                        break;
                    }
                    self.next_char();
                },
            }
        }
        proof {
            start.lemma_until(*self);
        }
        (start.up_to(self), start.as_str_until(self.pos()))
    }

    /// A place ahead is one that `as_str_until` can cut at.
    pub proof fn lemma_until(self, later: CodeIter<'a>)
        requires
            self.wf(),
            self@.reaches(later@),
        ensures
            later@.offset() > self@.offset() ==> is_char_boundary(
                encode_utf8(self@.rest()),
                later@.offset() - self@.offset(),
            ) && later@.offset() <= byte_len(self@.text),
            self@.offset() <= later@.offset(),
    {
        let j = later@.at - self@.at;
        lemma_offset_add(self@.text, self@.at, j);
        lemma_offset_boundary(self@.rest(), j);
        lemma_offset_grows(self@.text, self@.at, later@.at);
    }

    /// Reads `s` if the text ahead begins with it.
    pub fn take_str_matches(&mut self, s: &str) -> (r: Option<Span>)
        requires
            old(self).wf(),
        ensures
            final(self).wf(),
            final(self).reads() == old(self).reads(),
            r is Some == old(self)@.sees_text(s@),
            final(self)@ == (if r is Some { old(self)@.skip(s@.len() as int) } else { old(self)@ }),
            r is Some ==> r->0@ == old(self)@.to(final(self)@),
    {
        let start = self.clone();
        let mut ahead = self.clone();
        let mut left = s;
        let mut matched: bool = true;
        let ghost mut k: int = 0;
        loop
            invariant_except_break
                matched,
                start.wf(),
                ahead.wf(),
                ahead.reads() == start.reads(),
                0 <= k <= s@.len(),
                left@ == s@.skip(k),
                start@.reaches(ahead@),
                ahead@ == start@.skip(k),
                start@.text.subrange(start@.at, start@.at + k) =~= s@.take(k),
            ensures
                start.wf(),
                ahead.wf(),
                ahead.reads() == start.reads(),
                matched == start@.sees_text(s@),
                matched ==> ahead@ == start@.skip(s@.len() as int),
            decreases s@.len() - k,
        {
            match first_char(left) {
                None => {
                    proof {
                        assert(s@.take(k) =~= s@);
                    }
                    break;
                },
                Some(ch) => {
                    let next = ahead.next_char();
                    proof {
                        assert(s@[k] == ch);
                        if start@.sees_text(s@) {
                            assert(start@.text.subrange(start@.at, start@.at + s@.len())[k]
                                == start@.text[start@.at + k]);
                        }
                    }
                    match next {
                        Some(seen) if seen == ch => {},
                        _ => {
                            matched = false;
                            break;
                        },
                    }
                    let n = char_width(ch);
                    proof {
                        lemma_offset_step(left@, 0);
                        lemma_offset_zero(left@);
                        assert(s@.skip(k).skip(1) =~= s@.skip(k + 1));
                        assert(s@.take(k + 1) =~= s@.take(k).push(ch));
                    }
                    left = split_text(left, n, Ghost(1int)).1;
                    proof {
                        k = k + 1;
                    }
                },
            }
        }
        if !matched {
            return None;
        }
        *self = ahead;
        Some(start.up_to(self))
    }

    /// Reads a line break.
    pub fn take_newline(&mut self) -> (yes: bool)
        requires
            old(self).wf(),
        ensures
            final(self).wf(),
            final(self).reads() == old(self).reads(),
            yes == (old(self)@.newline() > 0),
            final(self)@ == old(self)@.skip(old(self)@.newline()),
    {
        if self.take_char_matches('\n') {
            return true;
        }
        let mut ahead = self.clone();
        if ahead.take_char_matches('\r') && ahead.take_char_matches('\n') {
            *self = ahead;
            true
        } else {
            false
        }
    }

    /// Reads `n` bytes, or the whole text ahead where it is shorter.
    pub fn skip_n_bytes(&mut self, n: usize)
        requires
            old(self).wf(),
            n <= byte_len(old(self)@.rest()) ==> is_char_boundary(
                encode_utf8(old(self)@.rest()),
                n as int,
            ),
        ensures
            final(self).wf(),
            final(self).reads() == old(self).reads(),
            old(self)@.reaches(final(self)@),
            n <= byte_len(old(self)@.rest()) ==> final(self)@.offset() == old(self)@.offset() + n,
            n > byte_len(old(self)@.rest()) ==> final(self)@.at_end(),
    {
        let len = self.chars.text.len();
        let n: usize = if n < len {
            n
        } else {
            len
        };
        proof {
            lemma_offset_split(self@.text, self@.at);
            lemma_offset_grows(self@.text, 0, self@.at);
            encode_utf8_valid_utf8(self@.rest());
            is_char_boundary_start_end_of_seq(encode_utf8(self@.rest()));
        }
        let ghost k = lemma_boundary_offset(self@.rest(), n as int);
        let (head, tail) = split_text(self.chars.text, n, Ghost(k));
        proof {
            let c = self@;
            reveal(offset_of);
            lemma_offset_add(c.text, c.at, k);
            assert(c.rest().skip(k) =~= c.text.skip(c.at + k));
            if n == len {
                if k < c.rest().len() {
                    lemma_offset_grows(c.rest(), k, c.rest().len() as int);
                    assert(c.rest().take(c.rest().len() as int) =~= c.rest());
                }
            }
        }
        self.pos.advance_by_str(head);
        self.chars = Ahead { text: tail };
    }

    /// Runs `f` on a copy of the cursor, and moves the cursor there if `f` succeeds.
    pub fn try_speculate<T, E>(&mut self, f: impl FnOnce(&mut Self) -> Result<T, E>) -> (r: Result<
        T,
        E,
    >)
        requires
            forall|p: &mut Self| *p == *old(self) ==> call_requires(f, (p,)),
        ensures
            exists|p: &mut Self|
                #![trigger call_ensures(f, (p,), r)]
                *p == *old(self) && call_ensures(f, (p,), r) && *final(self) == (if r is Ok {
                    *final(p)
                } else {
                    *old(self)
                }),
    {
        let mut ahead = self.clone();
        let r = f(&mut ahead);
        if r.is_ok() {
            *self = ahead;
        }
        r
    }

    /// Runs `f` on a copy of the cursor, and moves the cursor there if `f` gives a value.
    pub fn speculate_map<T>(&mut self, f: impl FnOnce(&mut Self) -> Option<T>) -> (r: Option<T>)
        requires
            forall|p: &mut Self| *p == *old(self) ==> call_requires(f, (p,)),
        ensures
            exists|p: &mut Self|
                #![trigger call_ensures(f, (p,), r)]
                *p == *old(self) && call_ensures(f, (p,), r) && *final(self) == (if r is Some {
                    *final(p)
                } else {
                    *old(self)
                }),
    {
        let mut ahead = self.clone();
        let r = f(&mut ahead);
        if r.is_some() {
            *self = ahead;
        }
        r
    }

    /// Runs `f` on a copy of the cursor, and moves the cursor there if `f` says so.
    pub fn speculate(&mut self, f: impl FnOnce(&mut Self) -> bool) -> (r: bool)
        requires
            forall|p: &mut Self| *p == *old(self) ==> call_requires(f, (p,)),
        ensures
            exists|p: &mut Self|
                #![trigger call_ensures(f, (p,), r)]
                *p == *old(self) && call_ensures(f, (p,), r) && *final(self) == (if r {
                    *final(p)
                } else {
                    *old(self)
                }),
    {
        let mut ahead = self.clone();
        let r = f(&mut ahead);
        if r {
            *self = ahead;
        }
        r
    }
}

impl<'a> Spanned for CodeIter<'a> {
    closed spec fn span_view(&self) -> SpanView {
        SpanView { start: self.pos@, end: self.pos@ }
    }

    fn span(&self) -> (s: Span) {
        self.pos.span()
    }
}

} // verus!
