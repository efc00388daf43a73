//! What holds of lists of words: how each of their characters is taken.

use vstd::prelude::*;

use crate::laws_call::{blank_code, law_characters_between_words};
use crate::list::{QuoteMode, WordScan};

verus! {

/// A part of a word between double quotes.
pub enum Inner {
    /// A character that stands for itself.
    Char(char),
    /// A backslash before a line feed, which stands for nothing.
    Fold,
    /// A backslash before a dollar sign, a back quote, a double quote or a backslash.
    Mark(char),
    /// A backslash before another character.
    Pair(char),
}

/// A part of a word.
pub enum Seg {
    /// A character that stands for itself.
    Char(char),
    /// A backslash before a line feed, which stands for nothing.
    Fold,
    /// A backslash before another character, for which it stands.
    Escaped(char),
    /// `'...'`
    Single(Seq<char>),
    /// `"..."`
    Double(Seq<Inner>),
}

pub open spec fn inner_text(i: Inner) -> Seq<char> {
    match i {
        Inner::Char(ch) => seq![ch],
        Inner::Fold => seq!['\\', '\n'],
        Inner::Mark(ch) => seq!['\\', ch],
        Inner::Pair(ch) => seq!['\\', ch],
    }
}

pub open spec fn inner_told(i: Inner) -> Seq<char> {
    match i {
        Inner::Char(ch) => seq![ch],
        Inner::Fold => seq![],
        Inner::Mark(_) => seq!['\\'],
        Inner::Pair(ch) => seq!['\\', ch],
    }
}

pub open spec fn inner_ok(i: Inner) -> bool {
    match i {
        Inner::Char(ch) => ch != '\\' && ch != '"',
        Inner::Fold => true,
        Inner::Mark(ch) => ch == '$' || ch == '`' || ch == '"' || ch == '\\',
        Inner::Pair(ch) => ch != '$' && ch != '`' && ch != '"' && ch != '\\' && ch != '\n',
    }
}

pub open spec fn inners_text(s: Seq<Inner>) -> Seq<char>
    decreases s.len(),
{
    if s.len() == 0 {
        seq![]
    } else {
        inner_text(s[0]) + inners_text(s.skip(1))
    }
}

pub open spec fn inners_told(s: Seq<Inner>) -> Seq<char>
    decreases s.len(),
{
    if s.len() == 0 {
        seq![]
    } else {
        inner_told(s[0]) + inners_told(s.skip(1))
    }
}

pub open spec fn inners_ok(s: Seq<Inner>) -> bool {
    forall|i: int| 0 <= i < s.len() ==> inner_ok(#[trigger] s[i])
}

pub open spec fn seg_text(s: Seg) -> Seq<char> {
    match s {
        Seg::Char(ch) => seq![ch],
        Seg::Fold => seq!['\\', '\n'],
        Seg::Escaped(ch) => seq!['\\', ch],
        Seg::Single(t) => seq!['\''] + t + seq!['\''],
        Seg::Double(t) => seq!['"'] + inners_text(t) + seq!['"'],
    }
}

pub open spec fn seg_told(s: Seg) -> Seq<char> {
    match s {
        Seg::Char(ch) => seq![ch],
        Seg::Fold => seq![],
        Seg::Escaped(ch) => seq![ch],
        Seg::Single(t) => t,
        Seg::Double(t) => inners_told(t),
    }
}

pub open spec fn seg_ok(s: Seg) -> bool {
    match s {
        Seg::Char(ch) => !blank_code(ch) && ch != '\\' && ch != '\'' && ch != '"',
        Seg::Fold => true,
        Seg::Escaped(ch) => ch != '\n',
        Seg::Single(t) => forall|i: int| 0 <= i < t.len() ==> #[trigger] t[i] != '\'',
        Seg::Double(t) => inners_ok(t),
    }
}

pub open spec fn segs_text(s: Seq<Seg>) -> Seq<char>
    decreases s.len(),
{
    if s.len() == 0 {
        seq![]
    } else {
        seg_text(s[0]) + segs_text(s.skip(1))
    }
}

pub open spec fn segs_told(s: Seq<Seg>) -> Seq<char>
    decreases s.len(),
{
    if s.len() == 0 {
        seq![]
    } else {
        seg_told(s[0]) + segs_told(s.skip(1))
    }
}

pub open spec fn segs_ok(s: Seq<Seg>) -> bool {
    forall|i: int| 0 <= i < s.len() ==> seg_ok(#[trigger] s[i])
}

spec fn scan_at(word: Seq<char>, blank: bool, mode: QuoteMode, rest: Seq<char>) -> WordScan {
    WordScan { word, blank, mode, rest }
}

proof fn lemma_first(w: WordScan, a: Seq<char>, b: Seq<char>)
    requires
        w.rest == a + b,
        a.len() > 0,
    ensures
        w.rest.len() > 0,
        w.rest[0] == a[0],
        a.len() > 1 ==> w.rest.len() > 1 && w.rest[1] == a[1],
        a.len() == 1 ==> w.rest.skip(1) == b,
        a.len() == 2 ==> w.rest.skip(2) == b,
{
    if a.len() == 1 {
        assert(w.rest.skip(1) =~= b);
    }
    if a.len() == 2 {
        assert(w.rest.skip(2) =~= b);
    }
}

proof fn lemma_single(w: WordScan, t: Seq<char>, tail: Seq<char>)
    requires
        w.mode == QuoteMode::SingleQuoted,
        w.rest == t + tail,
        !w.blank,
        forall|i: int| 0 <= i < t.len() ==> #[trigger] t[i] != '\'',
    ensures
        w.end() == scan_at(w.word + t, false, QuoteMode::SingleQuoted, tail).end(),
    decreases t.len(),
{
    if t.len() == 0 {
        assert(w.word + t =~= w.word);
        assert(t + tail =~= tail);
    } else {
        let t1 = t.skip(1);
        assert(t + tail =~= seq![t[0]] + (t1 + tail));
        lemma_first(w, seq![t[0]], t1 + tail);
        let w1 = scan_at(w.word + seq![t[0]], false, QuoteMode::SingleQuoted, t1 + tail);
        assert(w.step() == (w1, true));
        lemma_single(w1, t1, tail);
        assert(w.word + seq![t[0]] + t1 =~= w.word + t);
    }
}

proof fn lemma_double(w: WordScan, t: Seq<Inner>, tail: Seq<char>)
    requires
        w.mode == QuoteMode::DoubleQuoted,
        w.rest == inners_text(t) + tail,
        !w.blank,
        inners_ok(t),
    ensures
        w.end() == scan_at(w.word + inners_told(t), false, QuoteMode::DoubleQuoted, tail).end(),
    decreases t.len(),
{
    if t.len() == 0 {
        assert(w.word + inners_told(t) =~= w.word);
        assert(inners_text(t) + tail =~= tail);
    } else {
        let t1 = t.skip(1);
        let after = inners_text(t1) + tail;
        assert(inner_ok(t[0]));
        assert(inners_text(t) + tail =~= inner_text(t[0]) + after);
        lemma_first(w, inner_text(t[0]), after);
        let w1 = scan_at(w.word + inner_told(t[0]), false, QuoteMode::DoubleQuoted, after);
        assert(w.step() == (w1, true));
        assert forall|i: int| 0 <= i < t1.len() implies inner_ok(#[trigger] t1[i]) by {
            assert(t1[i] == t[i + 1]);
        }
        lemma_double(w1, t1, tail);
        assert(w.word + inner_told(t[0]) + inners_told(t1) =~= w.word + inners_told(t));
    }
}

proof fn lemma_seg(w: WordScan, s: Seg, tail: Seq<char>)
    requires
        w.mode == QuoteMode::Unquoted,
        w.rest == seg_text(s) + tail,
        seg_ok(s),
    ensures
        w.end() == scan_at(w.word + seg_told(s), false, QuoteMode::Unquoted, tail).end(),
{
    match s {
        Seg::Char(ch) => {
            law_characters_between_words(ch);
            lemma_first(w, seq![ch], tail);
            assert(w.step() == (
                scan_at(w.word + seq![ch], false, QuoteMode::Unquoted, tail),
                true,
            ));
        },
        Seg::Fold => {
            lemma_first(w, seg_text(s), tail);
            assert(w.step() == (
                scan_at(w.word + seq![], false, QuoteMode::Unquoted, tail),
                true,
            ));
        },
        Seg::Escaped(ch) => {
            lemma_first(w, seg_text(s), tail);
            assert(w.step() == (
                scan_at(w.word + seq![ch], false, QuoteMode::Unquoted, tail),
                true,
            ));
        },
        Seg::Single(t) => {
            let after = t + (seq!['\''] + tail);
            assert(w.rest =~= seq!['\''] + after);
            lemma_first(w, seq!['\''], after);
            let w1 = scan_at(w.word + seq![], false, QuoteMode::SingleQuoted, after);
            assert(w.step() == (w1, true));
            lemma_single(w1, t, seq!['\''] + tail);
            assert(w.word + seq![] + t =~= w.word + t);
            let w2 = scan_at(
                w.word + t,
                false,
                QuoteMode::SingleQuoted,
                seq!['\''] + tail,
            );
            lemma_first(w2, seq!['\''], tail);
            assert(w.word + t + seq![] =~= w.word + t);
            assert(w2.step() == (scan_at(w.word + t, false, QuoteMode::Unquoted, tail), true));
        },
        Seg::Double(t) => {
            let after = inners_text(t) + (seq!['"'] + tail);
            assert(w.rest =~= seq!['"'] + after);
            lemma_first(w, seq!['"'], after);
            let w1 = scan_at(w.word + seq![], false, QuoteMode::DoubleQuoted, after);
            assert(w.step() == (w1, true));
            lemma_double(w1, t, seq!['"'] + tail);
            let told = inners_told(t);
            assert(w.word + seq![] + told =~= w.word + told);
            let w2 = scan_at(
                w.word + told,
                false,
                QuoteMode::DoubleQuoted,
                seq!['"'] + tail,
            );
            lemma_first(w2, seq!['"'], tail);
            assert(w.word + told + seq![] =~= w.word + told);
            assert(w2.step() == (
                scan_at(w.word + told, false, QuoteMode::Unquoted, tail),
                true,
            ));
        },
    }
}

proof fn lemma_segs(w: WordScan, s: Seq<Seg>, tail: Seq<char>)
    requires
        w.mode == QuoteMode::Unquoted,
        w.rest == segs_text(s) + tail,
        segs_ok(s),
    ensures
        w.end() == scan_at(
            w.word + segs_told(s),
            w.blank && s.len() == 0,
            QuoteMode::Unquoted,
            tail,
        ).end(),
    decreases s.len(),
{
    if s.len() == 0 {
        assert(w.word + segs_told(s) =~= w.word);
        assert(segs_text(s) + tail =~= tail);
    } else {
        let s1 = s.skip(1);
        let after = segs_text(s1) + tail;
        assert(seg_ok(s[0]));
        assert(segs_text(s) + tail =~= seg_text(s[0]) + after);
        lemma_seg(w, s[0], after);
        let w1 = scan_at(w.word + seg_told(s[0]), false, QuoteMode::Unquoted, after);
        assert forall|i: int| 0 <= i < s1.len() implies seg_ok(#[trigger] s1[i]) by {
            assert(s1[i] == s[i + 1]);
        }
        lemma_segs(w1, s1, tail);
        assert(w.word + seg_told(s[0]) + segs_told(s1) =~= w.word + segs_told(s));
    }
}

/// The characters of `b` all part words.
pub open spec fn all_blank(b: Seq<char>) -> bool {
    forall|i: int| 0 <= i < b.len() ==> blank_code(#[trigger] b[i])
}

proof fn lemma_leading(b: Seq<char>, rest: Seq<char>)
    requires
        all_blank(b),
    ensures
        WordScan::begin(b + rest).end() == WordScan::begin(rest).end(),
    decreases b.len(),
{
    if b.len() == 0 {
        assert(b + rest =~= rest);
    } else {
        let b1 = b.skip(1);
        let w = WordScan::begin(b + rest);
        assert(b + rest =~= seq![b[0]] + (b1 + rest));
        assert(blank_code(b[0]));
        law_characters_between_words(b[0]);
        lemma_first(w, seq![b[0]], b1 + rest);
        assert(w.step() == (WordScan::begin(b1 + rest), true));
        lemma_leading(b1, rest);
    }
}

/// A word with a space, a tab or a line feed behind it is split off with it. It holds
/// what its parts stand for, and what was before it is dropped.
pub proof fn law_word_is_split_off(b: Seq<char>, s: Seq<Seg>, ch: char, tail: Seq<char>)
    requires
        all_blank(b),
        s.len() > 0,
        segs_ok(s),
        blank_code(ch),
    ensures
        ({
            let end = WordScan::begin(b + (segs_text(s) + (seq![ch] + tail))).end();
            &&& end.blank
            &&& end.word == segs_told(s)
            &&& end.rest == tail
            &&& end.mode == QuoteMode::Unquoted
        }),
{
    let after = seq![ch] + tail;
    lemma_leading(b, segs_text(s) + after);
    let w = WordScan::begin(segs_text(s) + after);
    lemma_segs(w, s, after);
    assert(w.word + segs_told(s) =~= segs_told(s));
    let w1 = scan_at(segs_told(s), false, QuoteMode::Unquoted, after);
    law_characters_between_words(ch);
    lemma_first(w1, seq![ch], tail);
    assert(w1.step() == (scan_at(segs_told(s), true, QuoteMode::Unquoted, tail), false));
}

/// A word that reaches to the end of the text is read to the end, and counts as not
/// parted.
pub proof fn law_last_word_is_not_parted(b: Seq<char>, s: Seq<Seg>)
    requires
        all_blank(b),
        s.len() > 0,
        segs_ok(s),
    ensures
        ({
            let end = WordScan::begin(b + segs_text(s)).end();
            &&& !end.blank
            &&& end.word == segs_told(s)
            &&& end.rest.len() == 0
            &&& end.mode == QuoteMode::Unquoted
        }),
{
    let none = Seq::<char>::empty();
    assert(segs_text(s) + none =~= segs_text(s));
    lemma_leading(b, segs_text(s));
    let w = WordScan::begin(segs_text(s));
    lemma_segs(w, s, none);
    assert(w.word + segs_told(s) =~= segs_told(s));
}

/// A text without a word gives an empty one.
pub proof fn law_blanks_alone_give_an_empty_word(b: Seq<char>)
    requires
        all_blank(b),
    ensures
        ({
            let end = WordScan::begin(b).end();
            &&& end.blank
            &&& end.word.len() == 0
            &&& end.rest.len() == 0
            &&& end.mode == QuoteMode::Unquoted
        }),
{
    assert(b + Seq::<char>::empty() =~= b);
    lemma_leading(b, seq![]);
}

/// A single quote that nothing closes takes the rest of the text.
pub proof fn law_open_single_quote(b: Seq<char>, s: Seq<Seg>, t: Seq<char>)
    requires
        all_blank(b),
        segs_ok(s),
        forall|i: int| 0 <= i < t.len() ==> #[trigger] t[i] != '\'',
    ensures
        ({
            let end = WordScan::begin(b + (segs_text(s) + (seq!['\''] + t))).end();
            &&& !end.blank
            &&& end.word == segs_told(s) + t
            &&& end.rest.len() == 0
            &&& end.mode == QuoteMode::SingleQuoted
        }),
{
    let after = seq!['\''] + t;
    lemma_leading(b, segs_text(s) + after);
    let w = WordScan::begin(segs_text(s) + after);
    lemma_segs(w, s, after);
    assert(w.word + segs_told(s) =~= segs_told(s));
    let w1 = scan_at(segs_told(s), s.len() == 0, QuoteMode::Unquoted, after);
    lemma_first(w1, seq!['\''], t);
    assert(segs_told(s) + seq![] =~= segs_told(s));
    let w2 = scan_at(segs_told(s), false, QuoteMode::SingleQuoted, t);
    assert(w1.step() == (w2, true));
    assert(t + Seq::<char>::empty() =~= t);
    lemma_single(w2, t, seq![]);
}

/// A double quote that nothing closes takes the rest of the text, and a backslash at its
/// end stands for itself.
pub proof fn law_open_double_quote(b: Seq<char>, s: Seq<Seg>, t: Seq<Inner>, mark: bool)
    requires
        all_blank(b),
        segs_ok(s),
        inners_ok(t),
    ensures
        ({
            let last = if mark {
                seq!['\\']
            } else {
                seq![]
            };
            let end = WordScan::begin(
                b + (segs_text(s) + (seq!['"'] + (inners_text(t) + last))),
            ).end();
            &&& !end.blank
            &&& end.word == segs_told(s) + inners_told(t) + last
            &&& end.rest.len() == 0
            &&& end.mode == QuoteMode::DoubleQuoted
        }),
{
    let last = if mark {
        seq!['\\']
    } else {
        seq![]
    };
    let inside = inners_text(t) + last;
    let after = seq!['"'] + inside;
    lemma_leading(b, segs_text(s) + after);
    let w = WordScan::begin(segs_text(s) + after);
    lemma_segs(w, s, after);
    assert(w.word + segs_told(s) =~= segs_told(s));
    let w1 = scan_at(segs_told(s), s.len() == 0, QuoteMode::Unquoted, after);
    lemma_first(w1, seq!['"'], inside);
    assert(segs_told(s) + seq![] =~= segs_told(s));
    let w2 = scan_at(segs_told(s), false, QuoteMode::DoubleQuoted, inside);
    assert(w1.step() == (w2, true));
    lemma_double(w2, t, last);
    let told = segs_told(s) + inners_told(t);
    let w3 = scan_at(told, false, QuoteMode::DoubleQuoted, last);
    if mark {
        assert(last.skip(1) =~= seq![]);
        assert(w3.step() == (scan_at(told + last, false, QuoteMode::DoubleQuoted, seq![]), true));
        assert(scan_at(told + last, false, QuoteMode::DoubleQuoted, seq![]).end() == scan_at(
            told + last,
            false,
            QuoteMode::DoubleQuoted,
            seq![],
        ));
    } else {
        assert(told + last =~= told);
    }
}

/// Outside quotes a backslash at the end of the text stands for itself, and ends the word.
pub proof fn law_last_backslash(b: Seq<char>, s: Seq<Seg>)
    requires
        all_blank(b),
        segs_ok(s),
    ensures
        ({
            let end = WordScan::begin(b + (segs_text(s) + seq!['\\'])).end();
            &&& !end.blank
            &&& end.word == segs_told(s) + seq!['\\']
            &&& end.rest.len() == 0
            &&& end.mode == QuoteMode::Unquoted
        }),
{
    let after = seq!['\\'];
    lemma_leading(b, segs_text(s) + after);
    let w = WordScan::begin(segs_text(s) + after);
    lemma_segs(w, s, after);
    assert(w.word + segs_told(s) =~= segs_told(s));
    let w1 = scan_at(segs_told(s), s.len() == 0, QuoteMode::Unquoted, after);
    assert(after.skip(1) =~= seq![]);
    assert(w1.step() == (
        scan_at(segs_told(s) + seq!['\\'], false, QuoteMode::Unquoted, seq![]),
        false,
    ));
}

} // verus!
